//! Rounding of a ratio of natural numbers to the nearest binary64 magnitude.
//!
//! Every finite binary64 number is a whole multiple of `2^-1074`. The ratios in
//! this module count in that unit, so a magnitude is `n / d` units.

use vstd::prelude::*;
use vstd::arithmetic::power2::*;
use vstd::arithmetic::div_mod::*;
use crate::natural;

verus! {

/// The weight of the exponent field in the bit pattern: `2^52`.
pub const FRACTION_SPAN: u64 = 0x10_0000_0000_0000;

/// The bit pattern of infinity, without its sign.
pub const INFINITE_BITS: u64 = 0x7ff0_0000_0000_0000;

/// `n / d` rounded to the nearest whole number, a tie going to the even one.
pub open spec fn nearest_whole(n: nat, d: nat) -> nat {
    let q = n / d;
    let r = n % d;
    if 2 * r < d || (2 * r == d && q % 2 == 0) {
        q
    } else {
        q + 1
    }
}

/// Whether `2^k` units is the spacing of the binary64 numbers around `n / d`.
pub open spec fn is_spacing(n: nat, d: nat, k: nat) -> bool {
    &&& n < d * pow2(53 + k)
    &&& k > 0 ==> d * pow2(52 + k) <= n
}

/// The exponent of the spacing of the binary64 numbers around `n / d`.
pub open spec fn spacing(n: nat, d: nat) -> nat {
    choose|k: nat| is_spacing(n, d, k)
}

/// The bit pattern, without its sign, of the binary64 number nearest to `n / d`
/// units, a tie going to the even pattern; infinity when the ratio is too large.
pub open spec fn round_to_bits(n: nat, d: nat) -> nat {
    let k = spacing(n, d);
    let bits = k * FRACTION_SPAN as nat + nearest_whole(n, d * pow2(k));
    if bits < INFINITE_BITS as nat {
        bits
    } else {
        INFINITE_BITS as nat
    }
}

pub proof fn lemma_pow2_le(a: nat, b: nat)
    requires
        a <= b,
    ensures
        pow2(a) <= pow2(b),
        0 < pow2(a),
{
    lemma_pow2_pos(a);
    if a < b {
        lemma_pow2_strictly_increases(a, b);
    }
}

/// There is at most one spacing.
pub proof fn lemma_spacing_unique(n: nat, d: nat, k: nat)
    requires
        is_spacing(n, d, k),
    ensures
        spacing(n, d) == k,
{
    let j = spacing(n, d);
    assert(is_spacing(n, d, j));
    let (low, high) = if j < k { (j, k) } else { (k, j) };
    if low < high {
        lemma_pow2_le(53 + low, (52 + high) as nat);
        assert(d * pow2(53 + low) <= d * pow2((52 + high) as nat)) by (nonlinear_arith)
            requires
                pow2(53 + low) <= pow2((52 + high) as nat),
        ;
    }
}

proof fn lemma_pow2_exceeds(n: nat)
    ensures
        n < pow2(n),
    decreases n,
{
    if n == 0 {
        lemma_pow2_pos(0);
    } else {
        lemma_pow2_exceeds((n - 1) as nat);
        lemma_pow2_unfold(n);
    }
}

proof fn lemma_spacing_below(n: nat, d: nat, k: nat) -> (j: nat)
    requires
        n < d * pow2(53 + k),
    ensures
        is_spacing(n, d, j),
    decreases k,
{
    if k == 0 || d * pow2(52 + k) <= n {
        k
    } else {
        lemma_spacing_below(n, d, (k - 1) as nat)
    }
}

/// Every ratio has a spacing.
pub proof fn lemma_spacing_exists(n: nat, d: nat)
    requires
        d > 0,
    ensures
        is_spacing(n, d, spacing(n, d)),
{
    lemma_pow2_exceeds(n);
    lemma_pow2_le(n, 53 + n);
    assert(n < d * pow2(53 + n)) by (nonlinear_arith)
        requires
            n < pow2(53 + n),
            d > 0,
    ;
    let k = lemma_spacing_below(n, d, n);
    assert(is_spacing(n, d, k));
}

/// Less than half a unit rounds to nothing.
pub proof fn lemma_round_tiny(n: nat, d: nat)
    requires
        2 * n < d,
    ensures
        round_to_bits(n, d) == 0,
{
    lemma2_to64();
    lemma_pow2_le(0, 53);
    assert(n < d * pow2(53)) by (nonlinear_arith)
        requires
            2 * n < d,
            pow2(53) >= 1,
    ;
    lemma_spacing_unique(n, d, 0);
    lemma_fundamental_div_mod_converse(n as int, d as int, 0, n as int);
}

/// What lies beyond the range of the format rounds to infinity.
pub proof fn lemma_round_huge(n: nat, d: nat)
    requires
        d > 0,
        n >= d * pow2(2100),
    ensures
        round_to_bits(n, d) == INFINITE_BITS,
{
    lemma_spacing_exists(n, d);
    let k = spacing(n, d);
    if k < 2047 {
        lemma_pow2_le(53 + k, 2100);
        assert(d * pow2(53 + k) <= d * pow2(2100)) by (nonlinear_arith)
            requires
                pow2(53 + k) <= pow2(2100),
        ;
    }
}

/// What stays well inside the range of the format rounds to a finite number.
pub proof fn lemma_round_finite(n: nat, d: nat)
    requires
        n < d * pow2(2000),
    ensures
        round_to_bits(n, d) < INFINITE_BITS,
{
    assert(d > 0) by (nonlinear_arith)
        requires
            n < d * pow2(2000),
    ;
    lemma_spacing_exists(n, d);
    let k = spacing(n, d);
    if k >= 1948 {
        lemma_pow2_le(2000, 52 + k);
        assert(d * pow2(2000) <= d * pow2(52 + k)) by (nonlinear_arith)
            requires
                pow2(2000) <= pow2(52 + k),
        ;
    }
    lemma_nearest_whole_bound(n, d);
}

/// The rounded number of spacings stays within the significand, or one above.
pub proof fn lemma_nearest_whole_bound(n: nat, d: nat)
    requires
        d > 0,
    ensures
        nearest_whole(n, d * pow2(spacing(n, d))) <= 2 * FRACTION_SPAN,
        spacing(n, d) > 0 ==> nearest_whole(n, d * pow2(spacing(n, d))) >= FRACTION_SPAN,
{
    lemma_spacing_exists(n, d);
    let k = spacing(n, d);
    let step = d * pow2(k);
    lemma2_to64();
    lemma2_to64_rest();
    lemma_pow2_pos(k);
    assert(step > 0) by (nonlinear_arith)
        requires
            step == d * pow2(k),
            d > 0,
            pow2(k) > 0,
    ;
    lemma_fundamental_div_mod(n as int, step as int);
    lemma_mod_bound(n as int, step as int);
    lemma_pow2_adds(53, k);
    let q = n / step;
    assert(q < pow2(53)) by (nonlinear_arith)
        requires
            n == step * q + n % step,
            n % step >= 0,
            n < d * pow2(53 + k),
            pow2(53 + k) == pow2(53) * pow2(k),
            step == d * pow2(k),
            step > 0,
    ;
    if k > 0 {
        lemma_pow2_adds(52, k);
        assert(q >= pow2(52)) by (nonlinear_arith)
            requires
                n == step * q + n % step,
                n % step < step,
                n >= d * pow2(52 + k),
                pow2(52 + k) == pow2(52) * pow2(k),
                step == d * pow2(k),
                step > 0,
        ;
    }
}

/// A unit or more does not round to nothing.
pub proof fn lemma_round_positive(n: nat, d: nat)
    requires
        n >= d > 0,
    ensures
        round_to_bits(n, d) > 0,
{
    let k = spacing(n, d);
    if k == 0 {
        lemma2_to64();
        lemma_div_non_zero(n as int, d as int);
    }
}

/// Multiplying both terms of a ratio leaves its rounding as it is.
pub proof fn lemma_nearest_whole_scaled(n: nat, d: nat, c: nat)
    requires
        d > 0,
        c > 0,
    ensures
        nearest_whole(n * c, d * c) == nearest_whole(n, d),
{
    let q = n / d;
    let r = n % d;
    lemma_fundamental_div_mod(n as int, d as int);
    assert(n * c == q * (d * c) + r * c) by (nonlinear_arith)
        requires
            n == d * q + r,
    ;
    assert(0 <= r * c < d * c) by (nonlinear_arith)
        requires
            0 <= r < d,
            c > 0,
    ;
    lemma_fundamental_div_mod_converse((n * c) as int, (d * c) as int, q as int, (r * c) as int);
    assert(2 * r < d <==> 2 * (r * c) < d * c) by (nonlinear_arith)
        requires
            c > 0,
    ;
    assert(2 * r == d <==> 2 * (r * c) == d * c) by (nonlinear_arith)
        requires
            c > 0,
    ;
}

/// Rounds a ratio of which only the whole part in units of `a`, and whether
/// anything is left over, are known. The whole part is `q * 2h + rest`.
proof fn lemma_nearest_whole_from_parts(
    n: nat,
    a: nat,
    m: nat,
    h: nat,
    q: nat,
    rest: nat,
    exact: bool,
)
    requires
        a > 0,
        h > 0,
        m == q * (2 * h) + rest,
        rest < 2 * h,
        m * a <= n < (m + 1) * a,
        exact <==> n == m * a,
    ensures
        nearest_whole(n, a * (2 * h)) == if rest < h || (rest == h && exact && q % 2 == 0) {
            q
        } else {
            q + 1
        },
{
    let f = (n - m * a) as nat;
    let d = a * (2 * h);
    let r = rest * a + f;
    assert((m + 1) * a == m * a + a) by (nonlinear_arith);
    assert(n == q * d + r) by (nonlinear_arith)
        requires
            n == m * a + f,
            m == q * (2 * h) + rest,
            d == a * (2 * h),
            r == rest * a + f,
    ;
    assert(r < d && d > 0) by (nonlinear_arith)
        requires
            r == rest * a + f,
            f < a,
            rest + 1 <= 2 * h,
            d == a * (2 * h),
            a > 0,
            h > 0,
    ;
    lemma_fundamental_div_mod_converse(n as int, d as int, q as int, r as int);
    if rest < h {
        assert(2 * r < d) by (nonlinear_arith)
            requires
                r == rest * a + f,
                f < a,
                rest + 1 <= h,
                d == a * (2 * h),
        ;
    } else if rest > h {
        assert(2 * r > d) by (nonlinear_arith)
            requires
                r == rest * a + f,
                rest >= h + 1,
                d == a * (2 * h),
                a > 0,
        ;
    } else {
        assert(2 * r == d + 2 * f) by (nonlinear_arith)
            requires
                r == h * a + f,
                d == a * (2 * h),
        ;
    }
}

/// A larger ratio has no smaller whole part and no smaller rounding.
proof fn lemma_nearest_whole_monotone(a: nat, b: nat, c: nat, d: nat)
    requires
        b > 0,
        d > 0,
        a * d <= c * b,
    ensures
        nearest_whole(a, b) <= nearest_whole(c, d),
{
    let q = a / b;
    let r = a % b;
    let p = c / d;
    let t = c % d;
    lemma_fundamental_div_mod(a as int, b as int);
    lemma_fundamental_div_mod(c as int, d as int);
    assert((b * q + r) * d <= (d * p + t) * b);
    assert(q <= p) by (nonlinear_arith)
        requires
            (b * q + r) * d <= (d * p + t) * b,
            0 <= r,
            t < d,
            b > 0,
            d > 0,
    ;
    if q == p {
        assert(r * d <= t * b) by (nonlinear_arith)
            requires
                (b * q + r) * d <= (d * p + t) * b,
                q == p,
        ;
        if 2 * t < d {
            assert(2 * r < b) by (nonlinear_arith)
                requires
                    r * d <= t * b,
                    2 * t < d,
                    b > 0,
                    d > 0,
            ;
        } else if 2 * t == d {
            assert(2 * r <= b) by (nonlinear_arith)
                requires
                    r * d <= t * b,
                    2 * t == d,
                    b > 0,
                    d > 0,
            ;
        }
    }
}

/// Rounding keeps the order: a larger ratio does not round to a smaller number.
pub proof fn lemma_round_monotone(a: nat, b: nat, c: nat, d: nat)
    requires
        b > 0,
        d > 0,
        a * d <= c * b,
    ensures
        round_to_bits(a, b) <= round_to_bits(c, d),
{
    lemma_spacing_exists(a, b);
    lemma_spacing_exists(c, d);
    lemma_nearest_whole_bound(a, b);
    lemma_nearest_whole_bound(c, d);
    let j = spacing(a, b);
    let k = spacing(c, d);
    if k < j {
        lemma_pow2_le(53 + k, 52 + j);
        assert(a * d > c * b) by (nonlinear_arith)
            requires
                b * pow2(52 + j) <= a,
                c < d * pow2(53 + k),
                pow2(53 + k) <= pow2(52 + j),
                b > 0,
                d > 0,
        ;
    } else if k == j {
        lemma_pow2_pos(k);
        let p = pow2(k);
        assert(a * (d * p) <= c * (b * p)) by (nonlinear_arith)
            requires
                a * d <= c * b,
                p > 0,
        ;
        assert(b * p > 0 && d * p > 0) by (nonlinear_arith)
            requires
                b > 0,
                d > 0,
                p > 0,
        ;
        lemma_nearest_whole_monotone(a, b * p, c, d * p);
    }
}

/// The power of two by which `2^scale` multiplies.
pub open spec fn raised(scale: int) -> nat {
    if scale > 0 {
        scale as nat
    } else {
        0
    }
}

/// Whether `n / d` is `m * 2^scale` where `exact` holds, and lies strictly
/// between that and `(m + 1) * 2^scale` where it does not.
pub open spec fn brackets(m: nat, scale: int, exact: bool, n: nat, d: nat) -> bool {
    let top = n * pow2(raised(-scale));
    let step = d * pow2(raised(scale));
    &&& m * step <= top < (m + 1) * step
    &&& exact <==> top == m * step
}

/// `2^e`.
pub(crate) fn power_of_two(e: u32) -> (p: u128)
    requires
        e < 128,
    ensures
        p == pow2(e as nat),
{
    let mut p: u128 = 1;
    let mut i: u32 = 0;
    proof {
        lemma2_to64();
    }
    while i < e
        invariant
            i <= e < 128,
            p == pow2(i as nat),
        decreases e - i,
    {
        proof {
            lemma_pow2_unfold((i + 1) as nat);
            lemma_pow2_le((i + 1) as nat, 127);
            lemma2_to64_rest();
            lemma2_to64();
            lemma_pow2_adds(64, 63);
        }
        p = p * 2;
        i = i + 1;
    }
    p
}

/// The number of binary digits of `m`, which has at least 55.
fn binary_length(m: u128) -> (length: u32)
    requires
        m >= 0x40_0000_0000_0000,
    ensures
        55 <= length <= 128,
        pow2((length - 1) as nat) <= m < pow2(length as nat),
{
    let mut length: u32 = 55;
    let mut rest: u128 = m / 0x80_0000_0000_0000;
    proof {
        lemma2_to64();
        lemma2_to64_rest();
        lemma_pow2_adds(64, 64);
    }
    while rest > 0
        invariant
            55 <= length <= 128,
            pow2((length - 1) as nat) <= m,
            rest == m as nat / pow2(length as nat),
            pow2(128) == 0x1_0000_0000_0000_0000_0000_0000_0000_0000,
        decreases rest,
    {
        proof {
            lemma_pow2_pos(length as nat);
            lemma_pow2_unfold((length + 1) as nat);
            lemma_fundamental_div_mod(m as int, pow2(length as nat) as int);
            assert(pow2(length as nat) <= m) by (nonlinear_arith)
                requires
                    m == pow2(length as nat) * rest + m as nat % pow2(length as nat),
                    rest >= 1,
            ;
            if length == 128 {
                assert(false);
            }
            lemma_div_denominator(m as int, pow2(length as nat) as int, 2);
        }
        rest = rest / 2;
        length = length + 1;
    }
    proof {
        let p = pow2(length as nat);
        lemma_pow2_pos(length as nat);
        lemma_fundamental_div_mod(m as int, p as int);
        lemma_mod_bound(m as int, p as int);
        assert(p * rest == 0) by (nonlinear_arith)
            requires
                rest == 0,
        ;
    }
    length
}

/// The step from a bracket to the rounded bit pattern, for the spacing `2^k`.
proof fn lemma_round_bracketed(
    m: nat,
    scale: int,
    exact: bool,
    n: nat,
    d: nat,
    length: nat,
    k: nat,
    h: nat,
    q: nat,
    rest: nat,
)
    requires
        d > 0,
        brackets(m, scale, exact, n, d),
        53 < length,
        pow2((length - 1) as nat) <= m < pow2(length),
        k == raised(scale + length - 53),
        h == pow2((k - scale - 1) as nat),
        m == q * (2 * h) + rest,
        rest < 2 * h,
    ensures
        spacing(n, d) == k,
        q < pow2(53),
        nearest_whole(n, d * pow2(k)) == if rest < h || (rest == h && exact && q % 2 == 0) {
            q
        } else {
            q + 1
        },
{
    let up = raised(scale);
    let down = raised(-scale);
    let s = (k - scale) as nat;
    let top = n * pow2(down);
    let step = d * pow2(up);
    lemma_pow2_pos(up);
    lemma_pow2_pos(down);
    lemma_pow2_pos(s);
    lemma_pow2_pos((s - 1) as nat);
    lemma_pow2_unfold(s);
    assert(step > 0) by (nonlinear_arith)
        requires
            d > 0,
            pow2(up) > 0,
            step == d * pow2(up),
    ;
    lemma_nearest_whole_from_parts(top, step, m, h, q, rest, exact);
    // The ratio `top / (step * 2^s)` is `n / (d * 2^k)`, both terms times `2^down`.
    assert(up + s == k + down);
    lemma_pow2_adds(up, s);
    lemma_pow2_adds(k, down);
    assert(step * (2 * h) == (d * pow2(k)) * pow2(down)) by (nonlinear_arith)
        requires
            step == d * pow2(up),
            2 * h == pow2(s),
            pow2(up) * pow2(s) == pow2(k) * pow2(down),
    ;
    lemma_pow2_pos(k);
    assert(d * pow2(k) > 0) by (nonlinear_arith)
        requires
            d > 0,
            pow2(k) > 0,
    ;
    lemma_nearest_whole_scaled(n, d * pow2(k), pow2(down));
    // The spacing.
    lemma_pow2_le(length, 53 + s);
    lemma_pow2_adds(up, 53 + s);
    lemma_pow2_adds(53 + k, down);
    assert(top < (d * pow2(53 + k)) * pow2(down)) by (nonlinear_arith)
        requires
            top < (m + 1) * step,
            m + 1 <= pow2(53 + s),
            step == d * pow2(up),
            pow2(up) * pow2(53 + s) == pow2(53 + k) * pow2(down),
            step > 0,
    ;
    assert(n < d * pow2(53 + k)) by (nonlinear_arith)
        requires
            n * pow2(down) < (d * pow2(53 + k)) * pow2(down),
            pow2(down) > 0,
    ;
    if k > 0 {
        lemma_pow2_adds(up, 52 + s);
        lemma_pow2_adds(52 + k, down);
        assert(length - 1 == 52 + s);
        assert((d * pow2(52 + k)) * pow2(down) <= top) by (nonlinear_arith)
            requires
                m * step <= top,
                pow2(52 + s) <= m,
                step == d * pow2(up),
                pow2(up) * pow2(52 + s) == pow2(52 + k) * pow2(down),
                step > 0,
        ;
        assert(d * pow2(52 + k) <= n) by (nonlinear_arith)
            requires
                (d * pow2(52 + k)) * pow2(down) <= n * pow2(down),
                pow2(down) > 0,
        ;
    }
    lemma_spacing_unique(n, d, k);
    lemma_pow2_adds(53, s);
    assert(q < pow2(53)) by (nonlinear_arith)
        requires
            q * (2 * h) <= m,
            m < pow2(53 + s),
            2 * h == pow2(s),
            pow2(53 + s) == pow2(53) * pow2(s),
            pow2(s) > 0,
    ;
}

/// The rounded bit pattern of a bracketed ratio.
pub(crate) fn round_bracketed(
    m: u128,
    scale: i32,
    exact: bool,
    Ghost(n): Ghost<nat>,
    Ghost(d): Ghost<nat>,
) -> (bits: u64)
    requires
        m >= 0x40_0000_0000_0000,
        -10000 <= scale <= 10000,
        d > 0,
        brackets(m as nat, scale as int, exact, n, d),
    ensures
        bits == round_to_bits(n, d),
{
    let length: u32 = binary_length(m);
    let excess: i32 = scale + length as i32 - 53;
    let k: i32 = if excess > 0 { excess } else { 0 };
    let s: i32 = k - scale;
    let mut q: u128 = 0;
    let mut up: bool = false;
    proof {
        lemma2_to64();
        lemma2_to64_rest();
        lemma_pow2_adds(64, 64);
    }
    if s <= 128 {
        let half: u128 = power_of_two((s - 1) as u32);
        let rest: u128;
        proof {
            lemma_pow2_unfold(s as nat);
        }
        if s == 128 {
            rest = m;
        } else {
            proof {
                lemma_pow2_le(s as nat, 127);
                lemma_pow2_unfold(128);
            }
            q = m / (half * 2);
            rest = m % (half * 2);
        }
        proof {
            lemma_fundamental_div_mod(m as int, (half * 2) as int);
            assert(m == q * (2 * half) + rest) by (nonlinear_arith)
                requires
                    m == (half * 2) * q + rest,
            ;
            lemma_round_bracketed(
                m as nat,
                scale as int,
                exact,
                n,
                d,
                length as nat,
                k as nat,
                half as nat,
                q as nat,
                rest as nat,
            );
        }
        up = !(rest < half || (rest == half && exact && q % 2 == 0));
    } else {
        proof {
            let half = pow2((s - 1) as nat);
            lemma_pow2_le(128, (s - 1) as nat);
            lemma_round_bracketed(
                m as nat,
                scale as int,
                exact,
                n,
                d,
                length as nat,
                k as nat,
                half,
                0,
                m as nat,
            );
        }
    }
    if k >= 2047 {
        return INFINITE_BITS;
    }
    let rounded: u64 = if up { q as u64 + 1 } else { q as u64 };
    let bits: u64 = k as u64 * FRACTION_SPAN + rounded;
    if bits < INFINITE_BITS {
        bits
    } else {
        INFINITE_BITS
    }
}

/// Whether `n / d` is `(a / b) * 2^scale`.
pub open spec fn is_ratio(a: nat, b: nat, scale: int, n: nat, d: nat) -> bool {
    (n * b) * pow2(raised(-scale)) == (a * d) * pow2(raised(scale))
}

/// Doubling a ratio by doubling its upper term.
pub proof fn lemma_ratio_doubled(a: nat, b: nat, scale: int, n: nat, d: nat)
    requires
        is_ratio(a, b, scale, n, d),
    ensures
        is_ratio(2 * a, b, scale - 1, n, d),
{
    if scale > 0 {
        lemma_pow2_unfold(scale as nat);
        assert((2 * a * d) * pow2((scale - 1) as nat) == (a * d) * pow2(scale as nat))
            by (nonlinear_arith)
            requires
                pow2(scale as nat) == 2 * pow2((scale - 1) as nat),
        ;
    } else {
        lemma_pow2_unfold((1 - scale) as nat);
        assert((n * b) * pow2((1 - scale) as nat) == 2 * ((n * b) * pow2((-scale) as nat)))
            by (nonlinear_arith)
            requires
                pow2((1 - scale) as nat) == 2 * pow2((-scale) as nat),
        ;
        assert((2 * a * d) * pow2(0) == 2 * ((a * d) * pow2(0))) by (nonlinear_arith);
    }
}

/// Halving a ratio by doubling its lower term.
pub proof fn lemma_ratio_halved(a: nat, b: nat, scale: int, n: nat, d: nat)
    requires
        is_ratio(a, b, scale, n, d),
    ensures
        is_ratio(a, 2 * b, scale + 1, n, d),
{
    if scale < 0 {
        lemma_pow2_unfold((-scale) as nat);
        assert((n * (2 * b)) * pow2((-scale - 1) as nat) == (n * b) * pow2((-scale) as nat))
            by (nonlinear_arith)
            requires
                pow2((-scale) as nat) == 2 * pow2((-scale - 1) as nat),
        ;
    } else {
        lemma_pow2_unfold((scale + 1) as nat);
        assert((a * d) * pow2((scale + 1) as nat) == 2 * ((a * d) * pow2(scale as nat)))
            by (nonlinear_arith)
            requires
                pow2((scale + 1) as nat) == 2 * pow2(scale as nat),
        ;
        assert((n * (2 * b)) * pow2(0) == 2 * ((n * b) * pow2(0))) by (nonlinear_arith);
    }
}

/// The whole part of a quotient brackets it.
pub proof fn lemma_ratio_brackets(
    a: nat,
    b: nat,
    scale: int,
    n: nat,
    d: nat,
    q: nat,
    rest: nat,
)
    requires
        is_ratio(a, b, scale, n, d),
        d > 0,
        a == b * q + rest,
        rest < b,
    ensures
        brackets(q, scale, rest == 0, n, d),
{
    let high = n * pow2(raised(-scale));
    let step = d * pow2(raised(scale));
    lemma_pow2_pos(raised(scale));
    assert(step > 0) by (nonlinear_arith)
        requires
            step == d * pow2(raised(scale)),
            d > 0,
            pow2(raised(scale)) > 0,
    ;
    assert(high * b == a * step) by (nonlinear_arith)
        requires
            (n * b) * pow2(raised(-scale)) == (a * d) * pow2(raised(scale)),
            high == n * pow2(raised(-scale)),
            step == d * pow2(raised(scale)),
    ;
    assert(q * step <= high < (q + 1) * step && (rest == 0 <==> high == q * step))
        by (nonlinear_arith)
        requires
            high * b == a * step,
            a == b * q + rest,
            0 <= rest < b,
            step > 0,
    ;
}

/// The rounded bit pattern of `(a / b) * 2^scale` units.
pub(crate) fn round_quotient(
    a: u128,
    b: u64,
    scale: i32,
    Ghost(n): Ghost<nat>,
    Ghost(d): Ghost<nat>,
) -> (bits: u64)
    requires
        a > 0,
        b > 0,
        -9000 <= scale <= 9000,
        d > 0,
        is_ratio(a as nat, b as nat, scale as int, n, d),
    ensures
        bits == round_to_bits(n, d),
{
    let mut top: u128 = a;
    let mut shift: i32 = scale;
    proof {
        lemma2_to64();
        lemma2_to64_rest();
        lemma_pow2_adds(64, 63);
    }
    while top < 0x8000_0000_0000_0000_0000_0000_0000_0000
        invariant
            0 <= scale - shift <= 127,
            pow2((scale - shift) as nat) <= top,
            pow2(127) == 0x8000_0000_0000_0000_0000_0000_0000_0000,
            -9000 <= scale <= 9000,
            is_ratio(top as nat, b as nat, shift as int, n, d),
        decreases 127 - (scale - shift),
    {
        proof {
            lemma_ratio_doubled(top as nat, b as nat, shift as int, n, d);
            lemma_pow2_unfold((scale - shift + 1) as nat);
        }
        top = top * 2;
        shift = shift - 1;
    }
    let q: u128 = top / b as u128;
    let rest: u128 = top % b as u128;
    proof {
        lemma_fundamental_div_mod(top as int, b as int);
        lemma_ratio_brackets(top as nat, b as nat, shift as int, n, d, q as nat, rest as nat);
        assert(q >= 0x40_0000_0000_0000) by (nonlinear_arith)
            requires
                top == b * q + rest,
                rest < b,
                b <= 0xffff_ffff_ffff_ffff,
                top >= 0x8000_0000_0000_0000_0000_0000_0000_0000,
        ;
    }
    round_bracketed(q, shift, rest == 0, Ghost(n), Ghost(d))
}

/// The rounded bit pattern of `a / b`, both given by their decimal digits.
pub(crate) fn round_natural_ratio(a: &Vec<u8>, b: &Vec<u8>) -> (bits: u64)
    requires
        natural::are_digits(a@),
        natural::are_digits(b@),
        natural::amount(a@) > 0,
        natural::amount(b@) > 0,
    ensures
        bits == round_to_bits(natural::amount(a@) * pow2(1074), natural::amount(b@)),
{
    let ghost n = natural::amount(a@) * pow2(1074);
    let ghost d = natural::amount(b@);
    let mut top: Vec<u8> = a.clone();
    let mut bottom: Vec<u8> = b.clone();
    let mut scale: i32 = 1074;
    proof {
        lemma2_to64();
        assert((n * d) * pow2(0) == (natural::amount(a@) * d) * pow2(1074)) by (nonlinear_arith)
            requires
                n == natural::amount(a@) * pow2(1074),
                pow2(0) == 1,
        ;
    }
    while scale >= 0 && !natural::at_least(&top, &bottom)
        invariant
            natural::are_digits(top@),
            natural::are_digits(bottom@),
            natural::amount(bottom@) > 0,
            -1 <= scale <= 1074,
            is_ratio(natural::amount(top@), natural::amount(bottom@), scale as int, n, d),
        decreases scale + 1,
    {
        proof {
            lemma_ratio_doubled(
                natural::amount(top@),
                natural::amount(bottom@),
                scale as int,
                n,
                d,
            );
        }
        top = natural::doubled(&top);
        scale = scale - 1;
    }
    if !natural::at_least(&top, &bottom) {
        proof {
            lemma2_to64();
            let x = natural::amount(top@);
            let y = natural::amount(bottom@);
            assert(2 * n < d) by (nonlinear_arith)
                requires
                    (n * y) * 2 == (x * d) * 1,
                    x < y,
                    d > 0,
            ;
            lemma_round_tiny(n, d);
        }
        return 0;
    }
    let mut twice: Vec<u8> = natural::doubled(&bottom);
    while scale < 2100 && natural::at_least(&top, &twice)
        invariant
            natural::are_digits(top@),
            natural::are_digits(bottom@),
            natural::are_digits(twice@),
            natural::amount(twice@) == 2 * natural::amount(bottom@),
            natural::amount(top@) >= natural::amount(bottom@) > 0,
            -1 <= scale <= 2100,
            is_ratio(natural::amount(top@), natural::amount(bottom@), scale as int, n, d),
        decreases 2100 - scale,
    {
        proof {
            lemma_ratio_halved(
                natural::amount(top@),
                natural::amount(bottom@),
                scale as int,
                n,
                d,
            );
        }
        bottom = twice;
        twice = natural::doubled(&bottom);
        scale = scale + 1;
    }
    if scale == 2100 {
        proof {
            lemma2_to64();
            let x = natural::amount(top@);
            let y = natural::amount(bottom@);
            assert(n >= d * pow2(2100)) by (nonlinear_arith)
                requires
                    (n * y) * 1 == (x * d) * pow2(2100),
                    x >= y,
                    y > 0,
                    d > 0,
            ;
            lemma_round_huge(n, d);
        }
        return INFINITE_BITS;
    }
    let mut q: u64 = 1;
    let mut rest: Vec<u8> = natural::less_by(&top, &bottom);
    let mut i: i32 = 0;
    let ghost start = scale;
    let ghost mut x = natural::amount(top@);
    let ghost y = natural::amount(bottom@);
    while i < 60
        invariant
            natural::are_digits(rest@),
            natural::are_digits(bottom@),
            y == natural::amount(bottom@),
            0 <= i <= 60,
            -1 <= start < 2100,
            scale == start - i,
            pow2(i as nat) <= q < 2 * pow2(i as nat),
            x == y * q + natural::amount(rest@),
            natural::amount(rest@) < y,
            is_ratio(x, y, scale as int, n, d),
        decreases 60 - i,
    {
        proof {
            lemma_ratio_doubled(x, y, scale as int, n, d);
            lemma_pow2_unfold((i + 1) as nat);
            lemma_pow2_le((i + 1) as nat, 60);
            lemma2_to64_rest();
            assert(2 * x == y * (2 * q) + 2 * natural::amount(rest@)) by (nonlinear_arith)
                requires
                    x == y * q + natural::amount(rest@),
            ;
            assert(y * (2 * q + 1) == y * (2 * q) + y) by (nonlinear_arith);
            x = 2 * x;
        }
        rest = natural::doubled(&rest);
        q = q * 2;
        if natural::at_least(&rest, &bottom) {
            rest = natural::less_by(&rest, &bottom);
            q = q + 1;
        }
        scale = scale - 1;
        i = i + 1;
    }
    proof {
        lemma2_to64_rest();
        lemma_ratio_brackets(x, y, scale as int, n, d, q as nat, natural::amount(rest@));
    }
    round_bracketed(q as u128, scale, natural::is_zero(&rest), Ghost(n), Ghost(d))
}

} // verus!
