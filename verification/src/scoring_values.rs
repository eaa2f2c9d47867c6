//! What the estimates and the partial scores of a model come to in numbers.

use vstd::prelude::*;
use vstd::arithmetic::power2::*;
use crate::accuracy;
use crate::catalog::CandidateView;
use crate::double;
use crate::double::Double;
use crate::hardware;
use crate::hardware::HardwareProfile;
use crate::order;
use crate::scoring;
use crate::scoring_laws;
use crate::text;

verus! {

/// The bounds that two roundings of a product leave, given those of its factor.
proof fn lemma_scaled_arithmetic(v: int, c: int, p: int, rate: int, one: int)
    requires
        v >= 0,
        c >= 0,
        rate >= 0,
        one > 0,
        accuracy::fineness() * (100 * c) <= (accuracy::fineness() + 1) * (rate * one),
        accuracy::fineness() * (100 * c) >= (accuracy::fineness() - 1) * (rate * one),
        2 * (accuracy::fineness() * (v * c - one * p)) <= v * c + accuracy::fineness() * one,
        2 * (accuracy::fineness() * (one * p - v * c)) <= v * c + accuracy::fineness() * one,
    ensures
        accuracy::fineness() * (100 * p) <= (accuracy::fineness() + 2) * (rate * v) + 50
            * accuracy::fineness(),
        accuracy::fineness() * (100 * p) >= (accuracy::fineness() - 2) * (rate * v) - 50
            * accuracy::fineness(),
{
    let k = accuracy::fineness();
    let w = rate * v;
    assert(w >= 0) by (nonlinear_arith)
        requires
            w == rate * v,
            rate >= 0,
            v >= 0,
    ;
    assert(k * (100 * (v * c)) <= (k + 1) * (w * one)) by (nonlinear_arith)
        requires
            k * (100 * c) <= (k + 1) * (rate * one),
            v >= 0,
            w == rate * v,
    ;
    assert(k * (100 * (v * c)) >= (k - 1) * (w * one)) by (nonlinear_arith)
        requires
            k * (100 * c) >= (k - 1) * (rate * one),
            v >= 0,
            w == rate * v,
    ;
    let vc = v * c;
    let wo = w * one;
    let op = one * p;
    assert(2 * k * op <= (2 * k + 1) * vc + k * one) by (nonlinear_arith)
        requires
            2 * (k * (op - vc)) <= vc + k * one,
    ;
    assert(2 * k * op >= (2 * k - 1) * vc - k * one) by (nonlinear_arith)
        requires
            2 * (k * (vc - op)) <= vc + k * one,
    ;
    assert(2 * k * (k * (100 * op)) <= (2 * k + 1) * ((k + 1) * wo) + 100 * k * k * one)
        by (nonlinear_arith)
        requires
            2 * k * op <= (2 * k + 1) * vc + k * one,
            k * (100 * vc) <= (k + 1) * wo,
            k > 0,
    {
        assert(100 * k * (2 * k * op) <= 100 * k * ((2 * k + 1) * vc + k * one));
        assert((2 * k + 1) * (k * (100 * vc)) <= (2 * k + 1) * ((k + 1) * wo));
    }
    assert(2 * k * (k * (100 * op)) >= (2 * k - 1) * ((k - 1) * wo) - 100 * k * k * one)
        by (nonlinear_arith)
        requires
            2 * k * op >= (2 * k - 1) * vc - k * one,
            k * (100 * vc) >= (k - 1) * wo,
            k > 0,
    {
        assert(100 * k * (2 * k * op) >= 100 * k * ((2 * k - 1) * vc - k * one));
        assert((2 * k - 1) * (k * (100 * vc)) >= (2 * k - 1) * ((k - 1) * wo));
    }
    assert(wo >= 0) by (nonlinear_arith)
        requires
            wo == w * one,
            w >= 0,
            one > 0,
    ;
    assert((2 * k + 1) * ((k + 1) * wo) <= 2 * k * ((k + 2) * wo)) by (nonlinear_arith)
        requires
            k >= 1,
            wo >= 0,
    ;
    assert((2 * k - 1) * ((k - 1) * wo) >= 2 * k * ((k - 2) * wo)) by (nonlinear_arith)
        requires
            k >= 1,
            wo >= 0,
    ;
    assert(k * (100 * op) <= (k + 2) * wo + 50 * k * one) by (nonlinear_arith)
        requires
            2 * k * (k * (100 * op)) <= 2 * k * ((k + 2) * wo) + 100 * k * k * one,
            k > 0,
    ;
    assert(k * (100 * op) >= (k - 2) * wo - 50 * k * one) by (nonlinear_arith)
        requires
            2 * k * (k * (100 * op)) >= 2 * k * ((k - 2) * wo) - 100 * k * k * one,
            k > 0,
    ;
    assert(k * (100 * p) <= (k + 2) * w + 50 * k) by (nonlinear_arith)
        requires
            k * (100 * op) <= (k + 2) * wo + 50 * k * one,
            op == one * p,
            wo == w * one,
            one > 0,
    ;
    assert(k * (100 * p) >= (k - 2) * w - 50 * k) by (nonlinear_arith)
        requires
            k * (100 * op) >= (k - 2) * wo - 50 * k * one,
            op == one * p,
            wo == w * one,
            one > 0,
    ;
}

/// So many hundredths of a number, but for two roundings and half a unit.
proof fn lemma_hundredths_of(x: Double, rate: nat)
    requires
        x.is_finite(),
        x.value() >= 0,
        0 < rate <= 1000,
        double::product(x, double::nearest(rate, 100)).is_finite(),
    ensures
        double::product(x, double::nearest(rate, 100)).value() >= 0,
        accuracy::fineness() * (100 * double::product(x, double::nearest(rate, 100)).value()) <= (
        accuracy::fineness() + 2) * (rate * x.value()) + 50 * accuracy::fineness(),
        accuracy::fineness() * (100 * double::product(x, double::nearest(rate, 100)).value()) >= (
        accuracy::fineness() - 2) * (rate * x.value()) - 50 * accuracy::fineness(),
{
    let c = double::nearest(rate, 100);
    let p = double::product(x, c);
    accuracy::lemma_one();
    accuracy::lemma_nearest_near(rate, 100);
    accuracy::lemma_product_near(x, c);
    assert(rate * accuracy::one() >= 0) by (nonlinear_arith)
        requires
            accuracy::one() > 0,
    ;
    accuracy::lemma_near_bounds(100 * c.value(), rate * accuracy::one(), 1);
    let vc = x.value() * c.value();
    let op = accuracy::one() * p.value();
    assert(double::absolute(vc - op) >= vc - op && double::absolute(vc - op) >= op - vc);
    lemma_scaled_arithmetic(x.value(), c.value(), p.value(), rate as int, accuracy::one());
}

/// A sum of so many hundredths of a number and a constant, but for a few roundings.
proof fn lemma_hundredths_and_constant(x: Double, rate: nat, constant: Double, base: nat)
    requires
        x.is_finite(),
        x.value() >= 0,
        0 < rate <= 1000,
        0 < base <= 1000,
        constant.is_finite(),
        100 * constant.value() == base * accuracy::one(),
        double::sum(double::product(x, double::nearest(rate, 100)), constant).is_finite(),
    ensures
        accuracy::is_near(
            100 * double::sum(double::product(x, double::nearest(rate, 100)), constant).value(),
            rate * x.value() + base * accuracy::one(),
            4,
        ),
{
    let k = accuracy::fineness();
    let one = accuracy::one();
    let c = double::nearest(rate, 100);
    let p = double::product(x, c);
    let s = double::sum(p, constant);
    order::lemma_nearest_positive(rate, 100);
    double::lemma_product_is_number(x, c);
    order::lemma_sum_is_number(p, constant);
    lemma_hundredths_of(x, rate);
    accuracy::lemma_sum_near(p, constant);
    accuracy::lemma_one();
    let w = rate * x.value();
    let b = base * one;
    let t = p.value() + constant.value();
    assert(w >= 0 && b >= one) by (nonlinear_arith)
        requires
            w == rate * x.value(),
            x.value() >= 0,
            b == base * one,
            base >= 1,
            one > 0,
    ;
    accuracy::lemma_near_bounds(s.value(), t, 1);
    accuracy::lemma_near_bounds(100 * s.value(), w + b, 4);
    assert(100 * t == 100 * p.value() + b);
    let sum = w + b;
    assert(k * (100 * t) <= (k + 2) * sum) by (nonlinear_arith)
        requires
            100 * t == 100 * p.value() + b,
            k * (100 * p.value()) <= (k + 2) * w + 50 * k,
            sum == w + b,
            b >= one,
            one > 1_000_000_000_000 * k,
            k > 0,
    ;
    assert(k * (100 * t) >= (k - 2) * sum) by (nonlinear_arith)
        requires
            100 * t == 100 * p.value() + b,
            k * (100 * p.value()) >= (k - 2) * w - 50 * k,
            sum == w + b,
            b >= one,
            one > 1_000_000_000_000 * k,
            k > 0,
    ;
    let r = s.value();
    lemma_two_steps(100 * r, 100 * t, sum, 2);
}

/// One rounding more.
proof fn lemma_two_steps(x: int, y: int, z: int, roundings: int)
    requires
        z >= 0,
        0 <= roundings <= 100,
        accuracy::fineness() * x <= (accuracy::fineness() + 1) * y,
        accuracy::fineness() * x >= (accuracy::fineness() - 1) * y,
        accuracy::fineness() * y <= (accuracy::fineness() + roundings) * z,
        accuracy::fineness() * y >= (accuracy::fineness() - roundings) * z,
    ensures
        accuracy::fineness() * x <= (accuracy::fineness() + roundings + 2) * z,
        accuracy::fineness() * x >= (accuracy::fineness() - roundings - 2) * z,
{
    let k = accuracy::fineness();
    assert(k * (k * x) <= (k + 1) * ((k + roundings) * z)) by (nonlinear_arith)
        requires
            k * x <= (k + 1) * y,
            k * y <= (k + roundings) * z,
            k > 0,
    {
        assert(k * (k * x) <= k * ((k + 1) * y));
        assert((k + 1) * (k * y) <= (k + 1) * ((k + roundings) * z));
    }
    assert(k * (k * x) >= (k - 1) * ((k - roundings) * z)) by (nonlinear_arith)
        requires
            k * x >= (k - 1) * y,
            k * y >= (k - roundings) * z,
            k > 1,
    {
        assert(k * (k * x) >= k * ((k - 1) * y));
        assert((k - 1) * (k * y) >= (k - 1) * ((k - roundings) * z));
    }
    assert((k + 1) * ((k + roundings) * z) <= k * ((k + roundings + 2) * z)) by (nonlinear_arith)
        requires
            z >= 0,
            0 <= roundings <= 100,
            k >= 1000,
    ;
    assert((k - 1) * ((k - roundings) * z) >= k * ((k - roundings - 2) * z)) by (nonlinear_arith)
        requires
            z >= 0,
            0 <= roundings <= 100,
            k >= 1000,
    ;
    assert(k * x <= (k + roundings + 2) * z) by (nonlinear_arith)
        requires
            k * (k * x) <= k * ((k + roundings + 2) * z),
            k > 0,
    ;
    assert(k * x >= (k - roundings - 2) * z) by (nonlinear_arith)
        requires
            k * (k * x) >= k * ((k - roundings - 2) * z),
            k > 0,
    ;
}

/// One and a quarter, and three quarters, are numbers of the format.
proof fn lemma_quarters()
    ensures
        double::nearest(125, 100).is_finite(),
        100 * double::nearest(125, 100).value() == 125 * accuracy::one(),
        double::nearest(75, 100).is_finite(),
        100 * double::nearest(75, 100).value() == 75 * accuracy::one(),
{
    lemma2_to64();
    order::lemma_nearest_same(125, 100, 5, pow2(2));
    order::lemma_nearest_same(75, 100, 3, pow2(2));
    order::lemma_nearest_exact(5, 2);
    order::lemma_nearest_exact(3, 2);
    lemma_pow2_adds(1072, 2);
}

/// The quantizations that a model file may have differ at their start.
proof fn lemma_quantizations_differ(q: Seq<char>)
    ensures
        "Q2"@.is_prefix_of(q) ==> q.len() >= 2 && q[0] == 'Q' && q[1] == '2',
        "Q3"@.is_prefix_of(q) ==> q.len() >= 2 && q[0] == 'Q' && q[1] == '3',
        "Q4"@.is_prefix_of(q) ==> q.len() >= 2 && q[0] == 'Q' && q[1] == '4',
        "Q5"@.is_prefix_of(q) ==> q.len() >= 2 && q[0] == 'Q' && q[1] == '5',
        "Q6"@.is_prefix_of(q) ==> q.len() >= 2 && q[0] == 'Q' && q[1] == '6',
        "Q8"@.is_prefix_of(q) ==> q.len() >= 2 && q[0] == 'Q' && q[1] == '8',
        q == "F16"@ ==> q[0] == 'F',
{
    reveal_strlit("Q2");
    reveal_strlit("Q3");
    reveal_strlit("Q4");
    reveal_strlit("Q5");
    reveal_strlit("Q6");
    reveal_strlit("Q8");
    reveal_strlit("F16");
    assert("Q2"@.is_prefix_of(q) ==> q.subrange(0, 2)[1] == '2' && q.subrange(0, 2)[0] == 'Q');
    assert("Q3"@.is_prefix_of(q) ==> q.subrange(0, 2)[1] == '3' && q.subrange(0, 2)[0] == 'Q');
    assert("Q4"@.is_prefix_of(q) ==> q.subrange(0, 2)[1] == '4' && q.subrange(0, 2)[0] == 'Q');
    assert("Q5"@.is_prefix_of(q) ==> q.subrange(0, 2)[1] == '5' && q.subrange(0, 2)[0] == 'Q');
    assert("Q6"@.is_prefix_of(q) ==> q.subrange(0, 2)[1] == '6' && q.subrange(0, 2)[0] == 'Q');
    assert("Q8"@.is_prefix_of(q) ==> q.subrange(0, 2)[1] == '8' && q.subrange(0, 2)[0] == 'Q');
}

/// Whether an estimate is so many hundredths of a gigabyte for each billion parameters and
/// one and a quarter gigabytes on top, but for a few roundings.
pub open spec fn takes(memory: Double, hundredths: int, billions: int) -> bool {
    accuracy::is_near(
        100 * memory.value(),
        hundredths * billions + 125 * accuracy::one(),
        4,
    )
}

/// The memory of a model whose file size is not known follows from its number of parameters,
/// 7 billion where that is not known either, and from its quantization.
pub proof fn lemma_memory_by_parameters(candidate: CandidateView, billions: int)
    requires
        candidate.size_gb is None,
        scoring::memory_of(candidate).is_finite(),
        candidate.parameter_billions matches Some(n) ==> n.is_finite() && n.value() == billions
            && billions >= 0,
        candidate.parameter_billions is None ==> billions == 7 * accuracy::one(),
    ensures
        candidate.quantization is None ==> takes(scoring::memory_of(candidate), 55, billions),
        candidate.quantization matches Some(q) ==> {
            let m = scoring::memory_of(candidate);
            &&& "Q2"@.is_prefix_of(q) ==> takes(m, 32, billions)
            &&& "Q3"@.is_prefix_of(q) ==> takes(m, 42, billions)
            &&& "Q4"@.is_prefix_of(q) ==> takes(m, 55, billions)
            &&& "Q5"@.is_prefix_of(q) ==> takes(m, 68, billions)
            &&& "Q6"@.is_prefix_of(q) ==> takes(m, 80, billions)
            &&& "Q8"@.is_prefix_of(q) ==> takes(m, 105, billions)
            &&& q == "F16"@ ==> takes(m, 205, billions)
            &&& !"Q2"@.is_prefix_of(q) && !"Q3"@.is_prefix_of(q) && !"Q4"@.is_prefix_of(q)
                && !"Q5"@.is_prefix_of(q) && !"Q6"@.is_prefix_of(q) && !"Q8"@.is_prefix_of(q)
                && q != "F16"@ ==> takes(m, 55, billions)
        },
{
    order::lemma_whole_exact(7);
    accuracy::lemma_one();
    lemma_quarters();
    if let Some(q) = candidate.quantization {
        lemma_quantizations_differ(q);
    }
    lemma_hundredths_and_constant(
        scoring::parameters_or(candidate, 7),
        scoring::memory_rate(scoring::precision_of(candidate.quantization)),
        double::nearest(125, 100),
        125,
    );
}

/// The memory of a model whose file size is known is one and a quarter times the size, and
/// three quarters of a gigabyte on top, whatever else is known of it.
pub proof fn lemma_memory_by_file(candidate: CandidateView, size: Double)
    requires
        candidate.size_gb == Some(size),
        size.is_finite(),
        size.value() >= 0,
        scoring::memory_of(candidate).is_finite(),
    ensures
        accuracy::is_near(
            100 * scoring::memory_of(candidate).value(),
            125 * size.value() + 75 * accuracy::one(),
            4,
        ),
{
    lemma_quarters();
    lemma_hundredths_and_constant(size, 125, double::nearest(75, 100), 75);
}

/// Of a model whose file size is not known, more parameters never take less memory.
pub proof fn lemma_more_parameters_take_no_less(
    candidate: CandidateView,
    few: Double,
    many: Double,
)
    requires
        candidate.size_gb is None,
        double::at_most(few, many),
    ensures
        double::at_most(
            scoring::memory_of(CandidateView { parameter_billions: Some(few), ..candidate }),
            scoring::memory_of(CandidateView { parameter_billions: Some(many), ..candidate }),
        ),
{
    let rate = scoring::memory_rate(scoring::precision_of(candidate.quantization));
    let factor = double::nearest(rate, 100);
    order::lemma_nearest_positive(rate, 100);
    order::lemma_nearest_positive(125, 100);
    order::lemma_product_monotone(few, many, factor);
    order::lemma_sum_monotone(
        double::product(few, factor),
        double::product(many, factor),
        double::nearest(125, 100),
    );
}

/// Of a model whose file size is not known, a billion parameters more take more memory: at
/// the coarsest, more than three tenths of a gigabyte for each billion.
pub proof fn lemma_more_parameters_take_more(
    candidate: CandidateView,
    few: Double,
    many: Double,
)
    requires
        candidate.size_gb is None,
        few.is_finite(),
        many.is_finite(),
        0 <= few.value(),
        few.value() + accuracy::one() <= many.value(),
        many.value() <= 1_000_000_000 * accuracy::one(),
    ensures
        ({
            let a = scoring::memory_of(CandidateView { parameter_billions: Some(few), ..candidate });
            let b = scoring::memory_of(CandidateView { parameter_billions: Some(many), ..candidate });
            &&& a.is_finite() && b.is_finite()
            &&& 100 * (b.value() - a.value()) > 30 * (many.value() - few.value())
        }),
{
    let rate = scoring::memory_rate(scoring::precision_of(candidate.quantization));
    let a = scoring::memory_of(CandidateView { parameter_billions: Some(few), ..candidate });
    let b = scoring::memory_of(CandidateView { parameter_billions: Some(many), ..candidate });
    let k = accuracy::fineness();
    let one = accuracy::one();
    accuracy::lemma_one();
    lemma_quarters();
    lemma_memory_finite(few, rate);
    lemma_memory_finite(many, rate);
    lemma_hundredths_and_constant(few, rate, double::nearest(125, 100), 125);
    lemma_hundredths_and_constant(many, rate, double::nearest(125, 100), 125);
    let p = few.value();
    let q = many.value();
    let wp = rate * p;
    let wq = rate * q;
    assert(wp >= 0 && wq >= 32 * one && wq - wp >= 32 * (q - p) && wp <= wq && wq
        <= 205_000_000_000 * one) by (nonlinear_arith)
        requires
            wp == rate * p,
            wq == rate * q,
            32 <= rate <= 205,
            0 <= p,
            p + one <= q,
            q <= 1_000_000_000 * one,
            one > 0,
    ;
    accuracy::lemma_near_bounds(100 * a.value(), wp + 125 * one, 4);
    accuracy::lemma_near_bounds(100 * b.value(), wq + 125 * one, 4);
    let x = a.value();
    let y = b.value();
    assert(k * (100 * (y - x)) > k * (30 * (q - p))) by (nonlinear_arith)
        requires
            k * (100 * x) <= (k + 4) * (wp + 125 * one),
            k * (100 * y) >= (k - 4) * (wq + 125 * one),
            wq - wp >= 32 * (q - p),
            q - p >= one,
            wp <= wq,
            wq <= 205_000_000_000 * one,
            one > 0,
            k == 0x10_0000_0000_0000,
    ;
    assert(100 * (y - x) > 30 * (q - p)) by (nonlinear_arith)
        requires
            k * (100 * (y - x)) > k * (30 * (q - p)),
            k > 0,
    ;
}

/// The estimate for a number of parameters that is not too large is finite.
proof fn lemma_memory_finite(x: Double, rate: nat)
    requires
        x.is_finite(),
        0 <= x.value() <= 1_000_000_000 * accuracy::one(),
        0 < rate <= 1000,
    ensures
        double::sum(
            double::product(x, double::nearest(rate, 100)),
            double::nearest(125, 100),
        ).is_finite(),
{
    let one = accuracy::one();
    let k = accuracy::fineness();
    let c = double::nearest(rate, 100);
    let p = double::product(x, c);
    accuracy::lemma_one();
    accuracy::lemma_nearest_near(rate, 100);
    assert(rate * one >= 0) by (nonlinear_arith)
        requires
            one > 0,
    ;
    accuracy::lemma_near_bounds(100 * c.value(), rate * one, 1);
    let u = c.value();
    let v = x.value();
    assert(u <= 20 * one) by (nonlinear_arith)
        requires
            k * (100 * u) <= (k + 1) * (rate * one),
            rate <= 1000,
            one > 0,
            k >= 1,
    ;
    assert(v * u <= 20_000_000_000 * (one * one)) by (nonlinear_arith)
        requires
            0 <= v <= 1_000_000_000 * one,
            0 <= u <= 20 * one,
    ;
    let ample = accuracy::ample();
    assert(v * u <= one * (ample * one)) by (nonlinear_arith)
        requires
            v * u <= 20_000_000_000 * (one * one),
            ample >= 20_000_000_000,
            one > 0,
    ;
    accuracy::lemma_product_finite(x, c);
    lemma_hundredths_of(x, rate);
    lemma_quarters();
    let w = p.value();
    assert(w <= 100_000_000_000 * one) by (nonlinear_arith)
        requires
            k * (100 * w) <= (k + 2) * (rate * v) + 50 * k,
            0 <= v <= 1_000_000_000 * one,
            0 < rate <= 1000,
            one > 1_000_000_000_000 * k,
            k >= 2,
    ;
    accuracy::lemma_sum_finite(p, double::nearest(125, 100));
}

/// Whether `x` is so many hundredths of `y`, but for two roundings and half a unit.
pub open spec fn is_share(x: int, hundredths: int, y: int) -> bool {
    accuracy::fineness() * double::absolute(100 * x - hundredths * y) <= 2 * (hundredths * y) + 50
        * accuracy::fineness()
}

/// A part of a finite number is finite, and it is that part.
proof fn lemma_part(x: Double, hundredths: nat)
    requires
        x.is_finite(),
        x.value() >= 0,
        0 < hundredths <= 100,
    ensures
        double::product(x, double::nearest(hundredths, 100)).is_finite(),
        double::product(x, double::nearest(hundredths, 100)).value() >= 0,
        is_share(
            double::product(x, double::nearest(hundredths, 100)).value(),
            hundredths as int,
            x.value(),
        ),
{
    let c = double::nearest(hundredths, 100);
    let p = double::product(x, c);
    let k = accuracy::fineness();
    let one = accuracy::one();
    let ample = accuracy::ample();
    accuracy::lemma_one();
    order::lemma_nearest_positive(hundredths, 100);
    accuracy::lemma_nearest_near(hundredths, 100);
    order::lemma_nearest_monotone(hundredths, 100, 1, 1);
    order::lemma_whole_exact(1);
    assert(c.value() <= one) by {
        reveal(double::at_most);
    }
    let v = x.value();
    let u = c.value();
    if v <= ample * one {
        assert(v * u <= one * (ample * one)) by (nonlinear_arith)
            requires
                0 <= v <= ample * one,
                0 <= u <= one,
        ;
        accuracy::lemma_product_finite(x, c);
    } else {
        assert(v >= one) by (nonlinear_arith)
            requires
                v > ample * one,
                ample >= 1,
                one > 0,
        ;
        assert(double::at_most(double::whole(1), x)) by {
            reveal(double::at_most);
        }
        scoring_laws::lemma_part_at_most(x, hundredths, 100);
        double::lemma_product_is_number(x, c);
        order::lemma_bounded_finite(p, x);
    }
    lemma_hundredths_of(x, hundredths);
    let h = hundredths * v;
    let w = 100 * p.value();
    assert(k * w - k * h <= 2 * h + 50 * k && k * h - k * w <= 2 * h + 50 * k) by (nonlinear_arith)
        requires
            k * w <= (k + 2) * h + 50 * k,
            k * w >= (k - 2) * h - 50 * k,
    ;
    assert(k * (w - h) == k * w - k * h && k * (h - w) == k * h - k * w) by (nonlinear_arith);
}

/// The memory that a model may take: what is free, or 72 hundredths of all memory where that
/// is less, and one gigabyte at least.
pub proof fn lemma_usable_memory(hardware: HardwareProfile) -> (part: int)
    requires
        hardware::is_measured(hardware),
        hardware.total_ram_gb.value() >= 0,
    ensures
        is_share(part, 72, hardware.total_ram_gb.value()),
        part == double::product(hardware.total_ram_gb, double::nearest(72, 100)).value(),
        ({
            let usable = scoring::effective_ram(hardware).value();
            let free = hardware.available_ram_gb.value();
            &&& usable >= accuracy::one()
            &&& free <= accuracy::one() || part <= accuracy::one() ==> usable == accuracy::one()
            &&& accuracy::one() <= free <= part ==> usable == free
            &&& accuracy::one() <= part <= free ==> usable == part
        }),
        scoring::effective_ram(hardware).is_finite(),
{
    let p = double::product(hardware.total_ram_gb, double::nearest(72, 100));
    lemma_part(hardware.total_ram_gb, 72);
    order::lemma_whole_exact(1);
    reveal(double::less);
    p.value()
}

/// How well an amount of memory fits: fully up to three quarters of what may be taken, well
/// up to all of it, barely up to 85 hundredths of all memory, and badly beyond.
pub proof fn lemma_fit_by_memory(memory: Double, hardware: HardwareProfile) -> (bounds: (int, int))
    requires
        hardware::is_measured(hardware),
        hardware.total_ram_gb.value() >= 0,
        memory.is_finite(),
    ensures
        is_share(bounds.0, 75, scoring::effective_ram(hardware).value()),
        is_share(bounds.1, 85, hardware.total_ram_gb.value()),
        bounds.0 == double::product(
            scoring::effective_ram(hardware),
            double::nearest(75, 100),
        ).value(),
        bounds.1 == double::product(hardware.total_ram_gb, double::nearest(85, 100)).value(),
        ({
            let m = memory.value();
            let all = scoring::effective_ram(hardware).value();
            let fit = 100 * scoring::fit_of(memory, hardware).value();
            let one = accuracy::one();
            &&& m <= bounds.0 ==> fit == 100 * one
            &&& bounds.0 < m <= all ==> accuracy::is_near(fit, 72 * one, 1)
            &&& bounds.0 < m && all < m <= bounds.1 ==> accuracy::is_near(fit, 38 * one, 1)
            &&& bounds.0 < m && all < m && bounds.1 < m ==> accuracy::is_near(fit, 8 * one, 1)
        }),
{
    let usable = scoring::effective_ram(hardware);
    let part = lemma_usable_memory(hardware);
    accuracy::lemma_one();
    lemma_part(usable, 75);
    lemma_part(hardware.total_ram_gb, 85);
    order::lemma_whole_exact(1);
    accuracy::lemma_nearest_near(72, 100);
    accuracy::lemma_nearest_near(38, 100);
    accuracy::lemma_nearest_near(8, 100);
    reveal(double::at_most);
    (
        double::product(usable, double::nearest(75, 100)).value(),
        double::product(hardware.total_ram_gb, double::nearest(85, 100)).value(),
    )
}

/// A model goes onto the graphics adapter where 72 hundredths of it fit there.
pub proof fn lemma_offload_by_memory(memory: Double, hardware: HardwareProfile) -> (part: int)
    requires
        memory.is_finite(),
        memory.value() >= 0,
        hardware.vram_gb matches Some(v) ==> !v.is_nan(),
    ensures
        is_share(part, 72, memory.value()),
        part == double::product(memory, double::nearest(72, 100)).value(),
        hardware.vram_gb matches Some(v) ==> (scoring::offloads(memory, hardware) <==> part
            <= v.value()),
        hardware.vram_gb is None ==> (scoring::offloads(memory, hardware) <==> part <= 0),
{
    lemma_part(memory, 72);
    order::lemma_whole_exact(0);
    reveal(double::at_most);
    double::product(memory, double::nearest(72, 100)).value()
}

/// The lesser of two integers.
pub open spec fn least(a: int, b: int) -> int {
    if a < b {
        a
    } else {
        b
    }
}

/// Whether `x` is `y` but for so many errors of rounding.
pub open spec fn is_within(x: int, y: int, grains: int) -> bool {
    double::absolute(x - y) <= grains * order::grain()
}

/// The share of a number in a scale that ends at `full`.
proof fn lemma_scale(n: Double, full: nat)
    requires
        order::is_natural(n),
        0 < full < 100,
    ensures
        ({
            let share = double::smaller(
                double::quotient(n, double::whole(full)),
                double::whole(1),
            );
            &&& share.is_finite()
            &&& 0 <= share.value() <= accuracy::one()
            &&& is_within(full * share.value(), least(n.value(), full * accuracy::one()), full as int)
        }),
{
    let one = accuracy::one();
    let k = accuracy::fineness();
    let scale = double::whole(full);
    let q = double::quotient(n, scale);
    let g = order::grain();
    accuracy::lemma_one();
    order::lemma_whole_exact(full);
    order::lemma_whole_exact(1);
    reveal(double::at_most);
    reveal(double::less);
    double::lemma_zero_units();
    if n.magnitude() > 0 {
        double::lemma_units_increase(0, n.magnitude());
    }
    let v = n.value();
    assert(full * one >= one) by (nonlinear_arith)
        requires
            full >= 1,
            one > 0,
    ;
    if v >= full * one {
        order::lemma_quotient_monotone(scale, n, scale);
        order::lemma_quotient_self(scale);
        double::lemma_quotient_is_number(n, scale);
        assert(double::smaller(q, double::whole(1)).value() == one);
        assert(full * g >= 0) by (nonlinear_arith)
            requires
                g > 0,
        ;
        order::lemma_pattern_order(double::whole(1), double::smaller(q, double::whole(1)));
        order::lemma_pattern_order(double::smaller(q, double::whole(1)), double::whole(1));
    } else {
        order::lemma_pattern_order(n, scale);
        double::lemma_quotient_is_number(n, scale);
        assert(n.is_finite());
        assert(v <= scale.value() * accuracy::ample()) by (nonlinear_arith)
            requires
                v < full * one,
                scale.value() == full * one,
                full * one >= one,
                one > 0,
                accuracy::ample() >= 1,
        ;
        accuracy::lemma_quotient_finite(n, scale);
        accuracy::lemma_quotient_near(n, scale);
        let w = q.value();
        let d = full * one;
        assert(2 * (k * (v - full * w)) <= v + k * full && 2 * (k * (full * w - v)) <= v + k * full)
            by (nonlinear_arith)
            requires
                2 * (k * (v * one - d * w)) <= v * one + k * d,
                2 * (k * (d * w - v * one)) <= v * one + k * d,
                d == full * one,
                one > 0,
        {
            assert(v * one - d * w == one * (v - full * w));
            assert(v * one + k * d == one * (v + k * full));
        }
        let fw = full * w;
        let fg = full * g;
        assert(v - fw <= fg && fw - v <= fg) by (nonlinear_arith)
            requires
                2 * (k * (v - fw)) <= v + k * full,
                2 * (k * (fw - v)) <= v + k * full,
                0 <= v < d,
                d == full * one,
                one == k * g,
                full > 0,
                g > 0,
                fg == full * g,
                k > 0,
        {
            assert(k * full <= k * fg) by (nonlinear_arith)
                requires
                    fg == full * g,
                    full > 0,
                    g > 0,
                    k > 0,
            ;
            assert(d == k * fg) by (nonlinear_arith)
                requires
                    d == full * one,
                    one == k * g,
                    fg == full * g,
            ;
        }
        if w > one {
            assert(fw >= d) by (nonlinear_arith)
                requires
                    fw == full * w,
                    d == full * one,
                    w > one,
            ;
        }
    }
}

/// So many hundredths of a small number, but for a few errors of rounding.
proof fn lemma_small_part(x: Double, hundredths: nat)
    requires
        x.is_finite(),
        0 <= x.value() <= 2 * accuracy::one(),
        hundredths <= 100,
    ensures
        ({
            let p = double::product(x, double::nearest(hundredths, 100));
            &&& p.is_finite()
            &&& p.value() >= 0
            &&& p.value() <= 3 * accuracy::one()
            &&& is_within(100 * p.value(), hundredths * x.value(), 400)
        }),
{
    let one = accuracy::one();
    let g = order::grain();
    let c = double::nearest(hundredths, 100);
    let p = double::product(x, c);
    accuracy::lemma_one();
    order::lemma_grain();
    order::lemma_nearest_close(hundredths, 100);
    double::lemma_zero_units();
    let v = x.value();
    let u = c.value();
    let h = hundredths as int;
    assert(h * one <= 100 * one) by (nonlinear_arith)
        requires
            h <= 100,
            one > 0,
    ;
    assert(0 <= u <= one + g);
    assert(v * u < one * (4 * one)) by (nonlinear_arith)
        requires
            0 <= v <= 2 * one,
            0 <= u <= one + g,
            0 < 1_000_000_000 * g < one,
    ;
    order::lemma_product_close(x, c);
    let w = p.value();
    let hv = h * v;
    assert(one * (100 * w - hv) <= one * (400 * g) && one * (hv - 100 * w) <= one * (400 * g))
        by (nonlinear_arith)
        requires
            v * u - one * w <= one * g,
            one * w - v * u <= one * g,
            h * one - 100 * u <= 100 * g,
            100 * u - h * one <= 100 * g,
            0 <= v <= 2 * one,
            hv == h * v,
            one > 0,
            g > 0,
    {
        assert(v * (h * one - 100 * u) <= v * (100 * g));
        assert(v * (100 * u - h * one) <= v * (100 * g));
        assert(v * (100 * g) <= 2 * one * (100 * g));
        assert(one * (100 * w - hv) == 100 * (one * w - v * u) + v * (100 * u - h * one));
        assert(one * (hv - 100 * w) == 100 * (v * u - one * w) + v * (h * one - 100 * u));
    }
    assert(100 * w - hv <= 400 * g && hv - 100 * w <= 400 * g) by (nonlinear_arith)
        requires
            one * (100 * w - hv) <= one * (400 * g),
            one * (hv - 100 * w) <= one * (400 * g),
            one > 0,
    ;
    assert(hv <= 200 * one) by (nonlinear_arith)
        requires
            hv == h * v,
            0 <= h <= 100,
            0 <= v <= 2 * one,
    ;
}

/// A sum of small numbers, of either sign, but for a few errors of rounding.
proof fn lemma_small_sum(a: Double, b: Double)
    requires
        a.is_finite(),
        b.is_finite(),
        double::absolute(a.value() + b.value()) <= 4 * accuracy::one(),
    ensures
        double::sum(a, b).is_finite(),
        is_within(double::sum(a, b).value(), a.value() + b.value(), 4),
{
    let k = accuracy::fineness();
    let one = accuracy::one();
    let g = order::grain();
    accuracy::lemma_one();
    let v = a.value() + b.value();
    assert(double::absolute(v) <= accuracy::ample() * one) by (nonlinear_arith)
        requires
            double::absolute(v) <= 4 * one,
            accuracy::ample() >= 4,
            one > 0,
    ;
    accuracy::lemma_sum_finite(a, b);
    accuracy::lemma_sum_near(a, b);
    let e = double::absolute(double::sum(a, b).value() - v);
    let m = double::absolute(v);
    assert(e <= 4 * g) by (nonlinear_arith)
        requires
            k * e <= 1 * m,
            m <= 4 * one,
            one == k * g,
            k > 0,
    ;
}

/// The quality of a family of models and a number of parameters: 82 parts in a hundred go by
/// the family, and 18 by the parameters, of which 14 billion count in full.
pub proof fn lemma_quality_value(family: nat, parameters: Double)
    requires
        family <= 100,
        order::is_natural(parameters),
    ensures
        ({
            let one = accuracy::one();
            let counted = least(parameters.value(), 14 * one);
            let quality = scoring::quality_from(family, parameters);
            &&& quality.is_finite()
            &&& is_within(
                140_000 * quality.value(),
                least(1148 * (family * one) + 1800 * counted, 140_000 * one),
                2_000_000,
            )
        }),
{
    let one = accuracy::one();
    let g = order::grain();
    order::lemma_grain();
    let f = double::nearest(family, 100);
    let share = double::smaller(
        double::quotient(parameters, double::whole(14)),
        double::whole(1),
    );
    let by_family = double::product(f, double::nearest(82, 100));
    let by_size = double::product(share, double::nearest(18, 100));
    order::lemma_nearest_close(family, 100);
    double::lemma_zero_units();
    let fo = family * one;
    assert(0 <= fo <= 100 * one) by (nonlinear_arith)
        requires
            fo == family * one,
            family <= 100,
            one > 0,
    ;
    lemma_small_part(f, 82);
    lemma_scale(parameters, 14);
    lemma_small_part(share, 18);
    assert(by_family.value() + by_size.value() <= 2 * one);
    lemma_small_sum(by_family, by_size);
    order::lemma_whole_exact(1);
    reveal(double::less);
}

/// What a description says of the family of a model, in hundredths of quality. The first of
/// the names that it holds counts.
pub proof fn lemma_family_by_name(lower: Seq<char>)
    ensures
        ({
            let rate = scoring::family_rate(lower);
            let deepseek = text::occurs("deepseek"@, lower);
            let qwen = text::occurs("qwen"@, lower);
            let llama = text::occurs("llama"@, lower);
            let mistral = text::occurs("mistral"@, lower);
            let gemma = text::occurs("gemma"@, lower);
            let phi = text::occurs("phi"@, lower);
            &&& rate == 91 <==> deepseek
            &&& rate == 89 <==> !deepseek && qwen
            &&& rate == 88 <==> !deepseek && !qwen && llama
            &&& rate == 87 <==> !deepseek && !qwen && !llama && mistral
            &&& rate == 82 <==> !deepseek && !qwen && !llama && !mistral && gemma
            &&& rate == 78 <==> !deepseek && !qwen && !llama && !mistral && !gemma && phi
            &&& rate == 72 <==> !deepseek && !qwen && !llama && !mistral && !gemma && !phi
        }),
{
}

/// The quality of a candidate goes by its own description and its own parameters, 3 billion
/// where they are not known.
pub proof fn lemma_quality_of_candidate(candidate: CandidateView)
    requires
        candidate.parameter_billions matches Some(n) ==> order::is_natural(n),
    ensures
        ({
            let one = accuracy::one();
            let billions = if candidate.parameter_billions is Some {
                candidate.parameter_billions->0.value()
            } else {
                3 * one
            };
            let family = scoring::family_rate(text::lowercase(scoring::description(candidate)));
            is_within(
                140_000 * scoring::quality_of(candidate).value(),
                least(1148 * (family * one) + 1800 * least(billions, 14 * one), 140_000 * one),
                2_000_000,
            )
        }),
{
    order::lemma_whole_exact(3);
    lemma_quality_value(
        scoring::family_rate(text::lowercase(scoring::description(candidate))),
        scoring::parameters_or(candidate, 3),
    );
}

/// Whether a speed is so many hundredths, less up to 35 for the number of parameters, of
/// which 20 billion count in full, and with 20 more on the graphics adapter. It is 5 at
/// least and 100 at most.
pub open spec fn runs(speed: Double, hundredths: int, billions: int, offload: bool) -> bool {
    let one = accuracy::one();
    let gained = 20 * (hundredths * one) - 35 * least(billions, 20 * one) + if offload {
        400 * one
    } else {
        0
    };
    &&& speed.is_finite()
    &&& is_within(
        2000 * speed.value(),
        if gained < 100 * one {
            100 * one
        } else {
            least(gained, 2000 * one)
        },
        100_000,
    )
}

/// The errors of rounding in a speed.
proof fn lemma_speed_errors(
    ro: int,
    t: int,
    bo: int,
    base: int,
    share: int,
    penalty: int,
    rest: int,
    bonus: int,
    total: int,
)
    requires
        is_within(ro, 100 * base, 100),
        is_within(20 * share, t, 20),
        is_within(100 * penalty, 35 * share, 400),
        is_within(rest, base - penalty, 4),
        is_within(bo, 100 * bonus, 100),
        is_within(total, rest + bonus, 4),
    ensures
        is_within(2000 * total, 20 * ro - 35 * t + 20 * bo, 90_000),
{
    order::lemma_grain();
}

#[verifier::spinoff_prover]
proof fn lemma_speed_by_rate(rate: nat, parameters: Double, offload: bool)
    requires
        rate <= 100,
        order::is_natural(parameters),
    ensures
        runs(
            double::confined(
                double::sum(
                    double::difference(
                        double::nearest(rate, 100),
                        double::product(
                            double::smaller(
                                double::quotient(parameters, double::whole(20)),
                                double::whole(1),
                            ),
                            double::nearest(35, 100),
                        ),
                    ),
                    if offload {
                        double::nearest(20, 100)
                    } else {
                        double::whole(0)
                    },
                ),
                double::nearest(5, 100),
                double::whole(1),
            ),
            rate as int,
            parameters.value(),
            offload,
        ),
{
    let one = accuracy::one();
    let g = order::grain();
    order::lemma_grain();
    let base = double::nearest(rate, 100);
    let share = double::smaller(
        double::quotient(parameters, double::whole(20)),
        double::whole(1),
    );
    let penalty = double::product(share, double::nearest(35, 100));
    let bonus = if offload {
        double::nearest(20, 100)
    } else {
        double::whole(0)
    };
    let ro = rate * one;
    assert(0 <= ro <= 100 * one) by (nonlinear_arith)
        requires
            ro == rate * one,
            rate <= 100,
            one > 0,
    ;
    order::lemma_nearest_close(rate, 100);
    order::lemma_nearest_close(20, 100);
    order::lemma_nearest_close(5, 100);
    order::lemma_whole_exact(0);
    order::lemma_whole_exact(1);
    double::lemma_zero_units();
    lemma_scale(parameters, 20);
    lemma_small_part(share, 35);
    let less = double::opposite(penalty);
    assert(less.is_finite() && less.value() == -penalty.value());
    lemma_small_sum(base, less);
    let rest = double::sum(base, less);
    lemma_small_sum(rest, bonus);
    let total = double::sum(rest, bonus);
    let low = double::nearest(5, 100);
    let gained = 20 * ro - 35 * least(parameters.value(), 20 * one) + if offload {
        400 * one
    } else {
        0
    };
    lemma_speed_errors(
        ro,
        least(parameters.value(), 20 * one),
        if offload {
            20 * one
        } else {
            0
        },
        base.value(),
        share.value(),
        penalty.value(),
        rest.value(),
        bonus.value(),
        total.value(),
    );
    lemma_confined_value(total, low, 2000, gained, 100 * one, 90_000);
}

/// What is held between a bound and 1, times a factor.
proof fn lemma_confined_value(x: Double, low: Double, factor: int, y: int, bottom: int, grains: int)
    requires
        x.is_finite(),
        low.is_finite(),
        factor > 0,
        bottom <= factor * accuracy::one(),
        is_within(factor * x.value(), y, grains),
        is_within(factor * low.value(), bottom, grains),
    ensures
        double::confined(x, low, double::whole(1)).is_finite(),
        is_within(
            factor * double::confined(x, low, double::whole(1)).value(),
            if y < bottom {
                bottom
            } else {
                least(y, factor * accuracy::one())
            },
            grains,
        ),
{
    order::lemma_whole_exact(1);
    order::lemma_grain();
    reveal(double::less);
    let v = x.value();
    let l = low.value();
    let one = accuracy::one();
    assert(v < l ==> factor * v <= factor * l) by (nonlinear_arith)
        requires
            factor > 0,
    ;
    assert(l <= v ==> factor * l <= factor * v) by (nonlinear_arith)
        requires
            factor > 0,
    ;
    assert(v <= one ==> factor * v <= factor * one) by (nonlinear_arith)
        requires
            factor > 0,
    ;
    assert(one < v ==> factor * one <= factor * v) by (nonlinear_arith)
        requires
            factor > 0,
    ;
}

/// The speed of a candidate goes by its quantization and by its own parameters, 7 billion
/// where they are not known.
pub proof fn lemma_speed_value(candidate: CandidateView, offload: bool, billions: int)
    requires
        candidate.parameter_billions matches Some(n) ==> order::is_natural(n) && n.value()
            == billions,
        candidate.parameter_billions is None ==> billions == 7 * accuracy::one(),
    ensures
        candidate.quantization is None ==> runs(
            scoring::speed_of(candidate, offload),
            84,
            billions,
            offload,
        ),
        candidate.quantization matches Some(q) ==> {
            let s = scoring::speed_of(candidate, offload);
            &&& "Q2"@.is_prefix_of(q) ==> runs(s, 95, billions, offload)
            &&& "Q3"@.is_prefix_of(q) ==> runs(s, 90, billions, offload)
            &&& "Q4"@.is_prefix_of(q) ==> runs(s, 84, billions, offload)
            &&& "Q5"@.is_prefix_of(q) ==> runs(s, 72, billions, offload)
            &&& "Q6"@.is_prefix_of(q) ==> runs(s, 62, billions, offload)
            &&& "Q8"@.is_prefix_of(q) ==> runs(s, 46, billions, offload)
            &&& q == "F16"@ ==> runs(s, 25, billions, offload)
            &&& !"Q2"@.is_prefix_of(q) && !"Q3"@.is_prefix_of(q) && !"Q4"@.is_prefix_of(q)
                && !"Q5"@.is_prefix_of(q) && !"Q6"@.is_prefix_of(q) && !"Q8"@.is_prefix_of(q)
                && q != "F16"@ ==> runs(s, 70, billions, offload)
        },
{
    order::lemma_whole_exact(7);
    if let Some(q) = candidate.quantization {
        lemma_quantizations_differ(q);
    }
    lemma_speed_by_rate(
        scoring::speed_rate(scoring::precision_of(candidate.quantization)),
        scoring::parameters_or(candidate, 7),
        offload,
    );
}

/// The bounds of the safety margin.
proof fn lemma_margin_arithmetic(e: int, m: int, d: int, q: int, p: int, one: int, g: int, k: int)
    requires
        0 <= m < e,
        one <= e,
        one == k * g,
        k > 0,
        g > 0,
        1_000_000_000 * g < one,
        k * (d - (e - m)) <= e - m,
        k * ((e - m) - d) <= e - m,
        d >= 0,
        2 * (k * (d * one - e * q)) <= d * one + k * e,
        2 * (k * (e * q - d * one)) <= d * one + k * e,
        2 * p - 3 * q <= 2 * g,
        3 * q - 2 * p <= 2 * g,
    ensures
        2 * (e * p) - 3 * ((e - m) * one) <= 20 * (e * g),
        3 * ((e - m) * one) - 2 * (e * p) <= 20 * (e * g),
{
    let r = e - m;
    let eg = e * g;
    assert(d <= 2 * e) by (nonlinear_arith)
        requires
            k * (d - r) <= r,
            r <= e,
            k > 0,
            r >= 0,
    ;
    assert((d - r) * one <= eg && (r - d) * one <= eg) by (nonlinear_arith)
        requires
            k * (d - r) <= r,
            k * (r - d) <= r,
            0 <= r <= e,
            one == k * g,
            eg == e * g,
            g > 0,
    {
        assert((d - r) * one == g * (k * (d - r)));
        assert((r - d) * one == g * (k * (r - d)));
        assert(g * (k * (d - r)) <= g * r);
        assert(g * (k * (r - d)) <= g * r);
        assert(g * r <= e * g);
    }
    let w = d * one;
    let eq = e * q;
    assert(w - eq <= 2 * eg && eq - w <= 2 * eg) by (nonlinear_arith)
        requires
            2 * (k * (w - eq)) <= w + k * e,
            2 * (k * (eq - w)) <= w + k * e,
            w == d * one,
            0 <= d <= 2 * e,
            one == k * g,
            eg == e * g,
            g >= 1,
            k > 0,
            e > 0,
    {
        assert(w <= 2 * (k * eg)) by (nonlinear_arith)
            requires
                w == d * one,
                0 <= d <= 2 * e,
                one == k * g,
                eg == e * g,
                g >= 1,
                k > 0,
        ;
        assert(k * e <= k * eg) by (nonlinear_arith)
            requires
                eg == e * g,
                g >= 1,
                k > 0,
                e > 0,
        ;
    }
    let ep = e * p;
    assert(2 * ep - 3 * eq <= 2 * eg && 3 * eq - 2 * ep <= 2 * eg) by (nonlinear_arith)
        requires
            2 * p - 3 * q <= 2 * g,
            3 * q - 2 * p <= 2 * g,
            ep == e * p,
            eq == e * q,
            eg == e * g,
            e > 0,
    ;
    assert((d - r) * one == w - r * one && (r - d) * one == r * one - w) by (nonlinear_arith)
        requires
            w == d * one,
    ;
}

/// The safety margin: one and a half times the part of the usable memory that is left, 1 at
/// most, and nothing where none is left.
pub proof fn lemma_safety_value(memory: Double, hardware: HardwareProfile)
    requires
        hardware::is_measured(hardware),
        memory.is_finite(),
        memory.value() >= 0,
    ensures
        ({
            let usable = scoring::effective_ram(hardware).value();
            let m = memory.value();
            let safety = scoring::safety_of(memory, hardware);
            let one = accuracy::one();
            &&& safety.is_finite()
            &&& m >= usable ==> safety.value() == 0
            &&& m < usable ==> double::absolute(
                2 * (usable * safety.value()) - least(3 * ((usable - m) * one), 2 * (usable * one)),
            ) <= 20 * (usable * order::grain())
        }),
{
    let effective = scoring::effective_ram(hardware);
    let one = accuracy::one();
    let k = accuracy::fineness();
    let g = order::grain();
    let e = effective.value();
    let m = memory.value();
    accuracy::lemma_one();
    order::lemma_grain();
    scoring_laws::lemma_effective_ram(hardware);
    scoring_laws::lemma_effective_ram_finite(hardware);
    order::lemma_whole_exact(1);
    order::lemma_whole_exact(0);
    assert(e >= one) by {
        reveal(double::at_most);
    }
    let rest = double::difference(effective, memory);
    let minus = double::opposite(memory);
    assert(minus.is_finite() && minus.value() == -m);
    let factor = double::nearest(15, 10);
    lemma2_to64();
    lemma_pow2_adds(1073, 1);
    order::lemma_nearest_same(15, 10, 3, pow2(1));
    order::lemma_nearest_exact(3, 1);
    order::lemma_nearest_positive(15, 10);
    assert(2 * factor.value() == 3 * one);
    order::lemma_finite_sum(effective, minus);
    double::lemma_zero_units();
    let q = double::quotient(rest, effective);
    let p = double::product(q, factor);
    reveal(double::less);
    if m >= e {
        lemma_no_margin(rest, effective, factor);
        double::lemma_zero_units();
    } else {
        order::lemma_difference_positive(effective, memory);
        lemma_margin_finite(effective, memory);
        accuracy::lemma_sum_near(effective, minus);
        let d = rest.value();
        assert(d >= 0);
        assert(k * double::absolute(d - (e - m)) <= 1 * (e - m));
        let gap = double::absolute(d - (e - m));
        assert(d <= 2 * e) by (nonlinear_arith)
            requires
                k * gap <= 1 * (e - m),
                d - (e - m) <= gap,
                k >= 1,
                0 <= m < e,
                gap >= 0,
        ;
        assert(k * (d - (e - m)) <= k * gap && k * ((e - m) - d) <= k * gap) by (nonlinear_arith)
            requires
                d - (e - m) <= gap,
                (e - m) - d <= gap,
                k > 0,
        ;
        assert(d <= e * accuracy::ample()) by (nonlinear_arith)
            requires
                d <= 2 * e,
                e > 0,
                accuracy::ample() >= 2,
        ;
        accuracy::lemma_quotient_finite(rest, effective);
        accuracy::lemma_quotient_near(rest, effective);
        let w = q.value();
        let dist = double::absolute(d * one - e * w);
        assert(k * (d * one - e * w) <= k * dist && k * (e * w - d * one) <= k * dist)
            by (nonlinear_arith)
            requires
                d * one - e * w <= dist,
                e * w - d * one <= dist,
                k > 0,
        ;
        assert(w <= 2 * one) by (nonlinear_arith)
            requires
                2 * (k * (e * w - d * one)) <= d * one + k * e,
                k * (d - (e - m)) <= e - m,
                0 <= m < e,
                e >= one,
                d >= 0,
                one > 1_000_000_000_000 * k,
                k >= 1_000_000,
        {
            assert(k * d <= k * e + e);
            assert(one * (k * d) <= one * (k * e + e));
            if w > 2 * one {
                assert(e * w >= 2 * one * e + e);
                assert(2 * k * (e * w) >= 2 * k * (2 * one * e + e));
                assert(d <= 2 * e) by (nonlinear_arith)
                    requires
                        k * d <= k * e + e,
                        k >= 1,
                        e > 0,
                ;
                assert(d * one <= 2 * (e * one)) by (nonlinear_arith)
                    requires
                        d <= 2 * e,
                        one > 0,
                ;
            }
        }
        assert(w * factor.value() < one * (4 * one)) by (nonlinear_arith)
            requires
                0 <= w <= 2 * one,
                2 * factor.value() == 3 * one,
                one > 0,
        ;
        order::lemma_product_close(q, factor);
        let r = p.value();
        let f = factor.value();
        assert(2 * r - 3 * w <= 2 * g && 3 * w - 2 * r <= 2 * g) by (nonlinear_arith)
            requires
                w * f - one * r <= one * g,
                one * r - w * f <= one * g,
                2 * f == 3 * one,
                one > 0,
        {
            assert(2 * (w * f) == 3 * (w * one)) by (nonlinear_arith)
                requires
                    2 * f == 3 * one,
            ;
            assert(one * (2 * r - 3 * w) <= one * (2 * g));
            assert(one * (3 * w - 2 * r) <= one * (2 * g));
        }
        lemma_margin_arithmetic(e, m, d, w, r, one, g, k);
        let t = 3 * ((e - m) * one);
        let eg = e * g;
        assert(eg >= 0) by (nonlinear_arith)
            requires
                eg == e * g,
                e > 0,
                g > 0,
        ;
        if r > one {
            assert(e * r >= e * one) by (nonlinear_arith)
                requires
                    r > one,
                    e > 0,
            ;
        } else {
            assert(e * r <= e * one) by (nonlinear_arith)
                requires
                    r <= one,
                    e > 0,
            ;
        }
    }
}

/// Where nothing is left there is no margin.
proof fn lemma_no_margin(rest: Double, effective: Double, factor: Double)
    requires
        !rest.is_nan(),
        rest.value() <= 0,
        order::is_positive(effective),
        order::is_positive(factor),
    ensures
        double::confined(
            double::product(double::quotient(rest, effective), factor),
            double::whole(0),
            double::whole(1),
        ).value() == 0,
        double::confined(
            double::product(double::quotient(rest, effective), factor),
            double::whole(0),
            double::whole(1),
        ).is_finite(),
{
    let zero = double::whole(0);
    let q = double::quotient(rest, effective);
    double::lemma_whole_zero();
    order::lemma_whole_exact(0);
    order::lemma_whole_exact(1);
    reveal(double::at_most);
    reveal(double::less);
    assert(double::at_most(rest, zero));
    order::lemma_quotient_monotone(rest, zero, effective);
    order::lemma_quotient_zero(effective);
    double::lemma_quotient_is_number(rest, effective);
    order::lemma_product_monotone(q, zero, factor);
    double::lemma_product_is_number(q, factor);
    let p = double::product(q, factor);
    order::lemma_pattern_order(p, zero);
    assert(double::product(zero, factor).magnitude() == 0) by {
        reveal(double::product);
        double::lemma_zero_units();
        assert(0 * double::units_of(factor.magnitude()) == 0);
        lemma_pow2_pos(1074);
        double::lemma_round_zero(double::one_in_units());
    }
    double::lemma_zero_units();
    if p.value() == 0 {
        order::lemma_zero_value(p);
    }
}

/// The difference of numbers of the same sign is finite.
proof fn lemma_margin_finite(a: Double, b: Double)
    requires
        order::is_positive(a),
        b.is_finite(),
        0 <= b.value() < a.value(),
    ensures
        double::difference(a, b).is_finite(),
{
    let c = double::opposite(b);
    let zero = double::whole(0);
    double::lemma_whole_zero();
    order::lemma_whole_exact(0);
    reveal(double::at_most);
    reveal(double::less);
    assert(c.value() == -b.value());
    order::lemma_difference_positive(a, b);
    assert(double::at_most(c, zero));
    order::lemma_sum_monotone(c, zero, a);
    order::lemma_sum_commutes(a, c);
    order::lemma_sum_commutes(a, zero);
    order::lemma_sum_with_zero(a, zero);
    order::lemma_bounded_finite(double::difference(a, b), a);
}

/// The popularity: a sixth of the logarithm of the downloads and a part of 3000 for each of
/// the first 500 likes, 1 at most.
pub proof fn lemma_popularity_value(download_log: Double, likes: u64)
    requires
        order::is_natural(download_log),
    ensures
        ({
            let one = accuracy::one();
            let p = scoring::popularity_of(download_log, likes);
            &&& p.is_finite()
            &&& is_within(
                3000 * p.value(),
                least(500 * download_log.value() + least(likes as int, 500) * one, 3000 * one),
                20_000,
            )
        }),
{
    let one = accuracy::one();
    let six = double::whole(6);
    let c = scoring::counted_likes(likes);
    let q = double::quotient(download_log, six);
    let x = double::quotient(double::whole(c), double::whole(3000));
    order::lemma_grain();
    order::lemma_whole_exact(6);
    order::lemma_whole_exact(1);
    order::lemma_quotient_whole(c, 3000);
    order::lemma_nearest_close(c, 3000);
    order::lemma_quotient_self(six);
    double::lemma_zero_units();
    if download_log.magnitude() > 0 {
        double::lemma_units_increase(0, download_log.magnitude());
    }
    let co = c * one;
    assert(co == least(likes as int, 500) * one);
    assert(0 <= co <= 500 * one) by (nonlinear_arith)
        requires
            co == c * one,
            0 <= c <= 500,
            one > 0,
    ;
    let p = scoring::popularity_of(download_log, likes);
    reveal(double::at_most);
    reveal(double::less);
    if download_log.value() >= 6 * one {
        scoring_laws::lemma_popularity_monotone(six, download_log, 0, likes);
        order::lemma_quotient_whole(0, 3000);
        order::lemma_nearest_same(0, 3000, 0, 1);
        double::lemma_whole_zero();
        order::lemma_sum_with_zero(double::whole(1), double::whole(0));
        assert(scoring::popularity_of(six, 0).value() == one);
        order::lemma_pattern_order(p, double::whole(1));
        scoring_laws::lemma_popularity_bounds(download_log, likes);
        order::lemma_bounded_finite(p, double::whole(1));
    } else {
        order::lemma_quotient_monotone(download_log, six, six);
        lemma_scale(download_log, 6);
        double::lemma_quotient_is_number(download_log, six);
        assert(q.value() <= one);
        assert(double::smaller(q, double::whole(1)).value() == q.value());
        order::lemma_pattern_order(q, double::whole(1));
        lemma_small_sum(q, x);
    }
}

/// The product of a score from 0 to 1 and a weight, in hundredths.
proof fn lemma_weighted_value(x: Double, weight: Double, hundredths: int)
    requires
        x.is_finite(),
        0 <= x.value() <= accuracy::one(),
        weight.is_finite(),
        0 <= weight.value() <= accuracy::one(),
        is_within(100 * weight.value(), hundredths, 900),
    ensures
        ({
            let p = double::product(x, weight);
            &&& p.is_finite()
            &&& 0 <= p.value() <= weight.value() + order::grain()
            &&& double::absolute(100 * (accuracy::one() * p.value()) - x.value() * hundredths)
                <= 1000 * (accuracy::one() * order::grain())
        }),
{
    let one = accuracy::one();
    let g = order::grain();
    let v = x.value();
    let u = weight.value();
    order::lemma_grain();
    assert(v * u < one * (4 * one)) by (nonlinear_arith)
        requires
            0 <= v <= one,
            0 <= u <= one,
            one > 0,
    ;
    order::lemma_product_close(x, weight);
    let w = double::product(x, weight).value();
    let h = hundredths;
    let og = one * g;
    assert(100 * (one * w) - v * h <= 1000 * og && v * h - 100 * (one * w) <= 1000 * og)
        by (nonlinear_arith)
        requires
            v * u - one * w <= og,
            one * w - v * u <= og,
            100 * u - h <= 900 * g,
            h - 100 * u <= 900 * g,
            0 <= v <= one,
            og == one * g,
            g > 0,
    {
        assert(v * (100 * u - h) <= v * (900 * g));
        assert(v * (h - 100 * u) <= v * (900 * g));
        assert(v * (900 * g) <= 900 * og) by (nonlinear_arith)
            requires
                0 <= v <= one,
                og == one * g,
                g > 0,
        ;
    }
    assert(w <= u + g) by (nonlinear_arith)
        requires
            one * w - v * u <= one * g,
            0 <= v <= one,
            0 <= u,
            one > 0,
    {
        assert(v * u <= one * u);
    }
}

/// What the quality and the speed count for: the one grows from 12 to 30 hundredths with the
/// preference, and the other falls from 25 to 13.
pub proof fn lemma_weights_value(preference: Double)
    requires
        preference.is_finite(),
        0 <= preference.value() <= accuracy::one(),
    ensures
        ({
            let one = accuracy::one();
            let v = preference.value();
            let q = scoring::quality_weight(preference);
            let s = scoring::speed_weight(preference);
            &&& q.is_finite() && s.is_finite()
            &&& 0 <= q.value() <= one && 0 <= s.value() <= one
            &&& is_within(100 * q.value(), 12 * one + 18 * v, 900)
            &&& is_within(100 * s.value(), 25 * one - 12 * v, 900)
        }),
{
    order::lemma_grain();
    order::lemma_nearest_close(12, 100);
    order::lemma_nearest_close(25, 100);
    double::lemma_zero_units();
    lemma_small_part(preference, 18);
    lemma_small_part(preference, 12);
    let add = double::product(preference, double::nearest(18, 100));
    let take = double::product(preference, double::nearest(12, 100));
    let less = double::opposite(take);
    assert(less.is_finite() && less.value() == -take.value());
    lemma_small_sum(double::nearest(12, 100), add);
    lemma_small_sum(double::nearest(25, 100), less);
}

/// Whether a number is finite and from 0 to 1.
pub open spec fn is_score(x: Double) -> bool {
    x.is_finite() && 0 <= x.value() <= accuracy::one()
}

/// The score: 37 hundredths of the fit, what the preference gives to the quality and the
/// speed, 15 hundredths of the safety margin and 8 of the popularity, and 6 hundredths more
/// where the task is suited, 1 at most.
#[verifier::spinoff_prover]
pub proof fn lemma_overall_value(
    fit: Double,
    quality: Double,
    speed: Double,
    safety: Double,
    popularity: Double,
    preference: Double,
    suited: bool,
)
    requires
        is_score(fit),
        is_score(quality),
        is_score(speed),
        is_score(safety),
        is_score(popularity),
        is_score(preference),
    ensures
        ({
            let one = accuracy::one();
            let v = preference.value();
            let total = 37 * (one * fit.value()) + quality.value() * (12 * one + 18 * v)
                + speed.value() * (25 * one - 12 * v) + 15 * (one * safety.value()) + 8 * (one
                * popularity.value()) + if suited {
                6 * (one * one)
            } else {
                0
            };
            let score = scoring::overall(
                fit,
                quality,
                speed,
                safety,
                popularity,
                preference,
                suited,
            );
            &&& is_score(score)
            &&& double::absolute(100 * (one * score.value()) - least(total, 100 * (one * one)))
                <= 8000 * (one * order::grain())
        }),
{
    let one = accuracy::one();
    let g = order::grain();
    let v = preference.value();
    order::lemma_grain();
    lemma_weights_value(preference);
    order::lemma_nearest_close(37, 100);
    order::lemma_nearest_close(15, 100);
    order::lemma_nearest_close(8, 100);
    order::lemma_nearest_close(6, 100);
    order::lemma_whole_exact(0);
    order::lemma_whole_exact(1);
    double::lemma_zero_units();
    lemma_weighted_value(fit, double::nearest(37, 100), 37 * one);
    lemma_weighted_value(quality, scoring::quality_weight(preference), 12 * one + 18 * v);
    lemma_weighted_value(speed, scoring::speed_weight(preference), 25 * one - 12 * v);
    lemma_weighted_value(safety, double::nearest(15, 100), 15 * one);
    lemma_weighted_value(popularity, double::nearest(8, 100), 8 * one);
    let a = double::product(fit, double::nearest(37, 100));
    let b = double::product(quality, scoring::quality_weight(preference));
    let c = double::product(speed, scoring::speed_weight(preference));
    let d = double::product(safety, double::nearest(15, 100));
    let e = double::product(popularity, double::nearest(8, 100));
    let f = if suited {
        double::nearest(6, 100)
    } else {
        double::whole(0)
    };
    lemma_six_terms(a, b, c, d, e, f);
    let bo = if suited {
        6 * one
    } else {
        0
    };
    assert(fit.value() * (37 * one) == 37 * (one * fit.value()) && safety.value() * (15 * one)
        == 15 * (one * safety.value()) && popularity.value() * (8 * one) == 8 * (one
        * popularity.value())) by (nonlinear_arith);
    lemma_bonus_error(f.value(), bo);
    assert(one * bo == if suited {
        6 * (one * one)
    } else {
        0
    }) by (nonlinear_arith)
        requires
            bo == if suited {
                6 * one
            } else {
                0
            },
    ;
    let all = double::sum(
        double::sum(double::sum(double::sum(double::sum(a, b), c), d), e),
        f,
    );
    let total = fit.value() * (37 * one) + quality.value() * (12 * one + 18 * v) + speed.value()
        * (25 * one - 12 * v) + safety.value() * (15 * one) + popularity.value() * (8 * one) + one
        * bo;
    assert(double::absolute(100 * (one * all.value()) - total) <= 7000 * (one * g));
    lemma_held_score(all, total);
}

/// The error of the bonus.
proof fn lemma_bonus_error(bonus: int, bo: int)
    requires
        is_within(bo, 100 * bonus, 100),
    ensures
        double::absolute(100 * (accuracy::one() * bonus) - accuracy::one() * bo) <= 100 * (
        accuracy::one() * order::grain()),
{
    let one = accuracy::one();
    let g = order::grain();
    order::lemma_grain();
    assert(100 * (one * bonus) - one * bo <= 100 * (one * g) && one * bo - 100 * (one * bonus)
        <= 100 * (one * g)) by (nonlinear_arith)
        requires
            bo - 100 * bonus <= 100 * g,
            100 * bonus - bo <= 100 * g,
            one > 0,
    ;
}

/// The sum of six small terms.
proof fn lemma_six_terms(a: Double, b: Double, c: Double, d: Double, e: Double, f: Double)
    requires
        a.is_finite() && b.is_finite() && c.is_finite() && d.is_finite() && e.is_finite()
            && f.is_finite(),
        a.value() >= 0 && b.value() >= 0 && c.value() >= 0 && d.value() >= 0 && e.value() >= 0
            && f.value() >= 0,
        a.value() + b.value() + c.value() + d.value() + e.value() + f.value() <= 3
            * accuracy::one(),
    ensures
        ({
            let all = double::sum(
                double::sum(double::sum(double::sum(double::sum(a, b), c), d), e),
                f,
            );
            let one = accuracy::one();
            &&& all.is_finite()
            &&& all.value() >= 0
            &&& double::absolute(
                one * all.value() - (one * a.value() + one * b.value() + one * c.value() + one
                    * d.value() + one * e.value() + one * f.value()),
            ) <= 5 * (one * order::grain())
        }),
{
    order::lemma_grain();
    let ab = double::sum(a, b);
    let abc = double::sum(ab, c);
    let abcd = double::sum(abc, d);
    let abcde = double::sum(abcd, e);
    let all = double::sum(abcde, f);
    order::lemma_sum_close(a, b);
    order::lemma_sum_close(ab, c);
    order::lemma_sum_close(abc, d);
    order::lemma_sum_close(abcd, e);
    order::lemma_sum_close(abcde, f);
    lemma_sum_errors(
        a.value(),
        b.value(),
        c.value(),
        d.value(),
        e.value(),
        f.value(),
        ab.value(),
        abc.value(),
        abcd.value(),
        abcde.value(),
        all.value(),
    );
}

/// The errors of rounding in a sum of six terms.
proof fn lemma_sum_errors(
    a: int,
    b: int,
    c: int,
    d: int,
    e: int,
    f: int,
    ab: int,
    abc: int,
    abcd: int,
    abcde: int,
    all: int,
)
    requires
        is_within(ab, a + b, 1),
        is_within(abc, ab + c, 1),
        is_within(abcd, abc + d, 1),
        is_within(abcde, abcd + e, 1),
        is_within(all, abcde + f, 1),
    ensures
        ({
            let one = accuracy::one();
            double::absolute(
                one * all - (one * a + one * b + one * c + one * d + one * e + one * f),
            ) <= 5 * (one * order::grain())
        }),
{
    let one = accuracy::one();
    let g = order::grain();
    order::lemma_grain();
    let plain = a + b + c + d + e + f;
    assert(one * all - one * plain <= 5 * (one * g) && one * plain - one * all <= 5 * (one * g))
        by (nonlinear_arith)
        requires
            all - plain <= 5 * g,
            plain - all <= 5 * g,
            one > 0,
    ;
    assert(one * plain == one * a + one * b + one * c + one * d + one * e + one * f)
        by (nonlinear_arith)
        requires
            plain == a + b + c + d + e + f,
    ;
}

/// A total that is not negative, held from 0 to 1.
proof fn lemma_held_score(x: Double, total: int)
    requires
        x.is_finite(),
        x.value() >= 0,
        double::absolute(100 * (accuracy::one() * x.value()) - total) <= 7000 * (accuracy::one()
            * order::grain()),
    ensures
        ({
            let score = double::confined(x, double::whole(0), double::whole(1));
            let one = accuracy::one();
            &&& is_score(score)
            &&& double::absolute(100 * (one * score.value()) - least(total, 100 * (one * one)))
                <= 8000 * (one * order::grain())
        }),
{
    let one = accuracy::one();
    let g = order::grain();
    let v = x.value();
    order::lemma_grain();
    order::lemma_whole_exact(0);
    order::lemma_whole_exact(1);
    reveal(double::less);
    assert(one * g >= 0) by (nonlinear_arith)
        requires
            one > 0,
            g > 0,
    ;
    if v > one {
        assert(one * v >= one * one) by (nonlinear_arith)
            requires
                v > one,
                one > 0,
        ;
    } else {
        assert(one * v <= one * one) by (nonlinear_arith)
            requires
                v <= one,
                one > 0,
        ;
    }
}

} // verus!
