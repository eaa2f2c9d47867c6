//! What holds of the scores and of what is said about a model.

use vstd::prelude::*;
use vstd::arithmetic::power2::*;
use vstd::arithmetic::div_mod::*;
use crate::catalog;
use crate::catalog::CandidateView;
use crate::double;
use crate::double::Double;
use crate::hardware;
use crate::hardware::HardwareProfile;
use crate::order;
use crate::scoring;
use crate::scoring::{Assessment, RecommendationRequest, RecommendationView};
use crate::text;

verus! {

/// The memory that a model may take is a number, and at least a gigabyte.
pub proof fn lemma_effective_ram(hardware: HardwareProfile)
    ensures
        double::at_most(double::whole(1), scoring::effective_ram(hardware)),
{
    reveal(double::at_most);
    reveal(double::less);
    order::lemma_whole_exact(1);
}

/// A part of a number greater than zero is not greater than the number.
pub proof fn lemma_part_at_most(x: Double, n: nat, d: nat)
    requires
        double::at_most(double::whole(1), x),
        0 < n <= d <= u64::MAX,
    ensures
        double::at_most(double::product(x, double::nearest(n, d)), x),
{
    reveal(double::at_most);
    order::lemma_whole_exact(1);
    order::lemma_pattern_order(double::whole(1), x);
    order::lemma_nearest_positive(n, d);
    order::lemma_nearest_monotone(n, d, 1, 1);
    order::lemma_product_one(x);
    if x.is_finite() {
        order::lemma_product_monotone(double::nearest(n, d), double::whole(1), x);
        order::lemma_product_commutes(double::nearest(n, d), x);
        order::lemma_product_commutes(double::whole(1), x);
    } else {
        double::lemma_product_is_number(x, double::nearest(n, d));
        assert(double::product(x, double::nearest(n, d)).is_infinite()) by {
            reveal(double::product);
        }
    }
}

/// The grades of the fit: which are good enough to say that a model fits, and which are
/// bad enough to advise against it.
proof fn lemma_fit_grades()
    ensures
        double::less(double::nearest(7, 10), double::whole(1)),
        double::less(double::nearest(7, 10), double::nearest(72, 100)),
        double::less(double::nearest(38, 100), double::nearest(4, 10)),
        double::less(double::nearest(8, 100), double::nearest(4, 10)),
        double::less(double::nearest(8, 100), double::nearest(38, 100)),
        double::less(double::nearest(4, 10), double::nearest(7, 10)),
{
    lemma2_to64();
    order::lemma_nearest_less(7, 10, 1, 1, 90, 7);
    order::lemma_nearest_less(7, 10, 72, 100, 90, 7);
    order::lemma_nearest_less(38, 100, 4, 10, 49, 7);
    order::lemma_nearest_less(8, 100, 4, 10, 49, 7);
    order::lemma_nearest_less(8, 100, 38, 100, 20, 7);
    order::lemma_nearest_less(4, 10, 7, 10, 60, 7);
}

/// A model is said to fit exactly where it takes no more memory than it may, and advised
/// against exactly where it takes more.
pub proof fn lemma_fit_tells(memory: Double, hardware: HardwareProfile)
    ensures
        scoring::fits(scoring::fit_of(memory, hardware)) <==> double::at_most(
            memory,
            scoring::effective_ram(hardware),
        ),
        double::less(scoring::fit_of(memory, hardware), double::nearest(4, 10))
            <==> !double::at_most(memory, scoring::effective_ram(hardware)),
{
    let effective = scoring::effective_ram(hardware);
    lemma_effective_ram(hardware);
    lemma_part_at_most(effective, 75, 100);
    lemma_fit_grades();
    reveal(double::at_most);
    reveal(double::less);
}

/// What each grade of the fit means: comfortable, within what the model may take, risky but
/// within most of the machine's memory, and beyond that.
pub proof fn lemma_fit_grade_meaning(memory: Double, hardware: HardwareProfile)
    ensures
        ({
            let fit = scoring::fit_of(memory, hardware);
            let effective = scoring::effective_ram(hardware);
            let comfortable = double::at_most(
                memory,
                double::product(effective, double::nearest(75, 100)),
            );
            let allowed = double::at_most(memory, effective);
            let possible = double::at_most(
                memory,
                double::product(hardware.total_ram_gb, double::nearest(85, 100)),
            );
            &&& comfortable ==> allowed
            &&& fit == double::whole(1) <==> comfortable
            &&& fit == double::nearest(72, 100) <==> allowed && !comfortable
            &&& fit == double::nearest(38, 100) <==> possible && !allowed
            &&& fit == double::nearest(8, 100) <==> !possible && !allowed
        }),
{
    lemma_effective_ram(hardware);
    lemma_part_at_most(scoring::effective_ram(hardware), 75, 100);
    lemma_fit_grades();
    lemma2_to64();
    order::lemma_nearest_less(72, 100, 1, 1, 93, 7);
    reveal(double::at_most);
    reveal(double::less);
}

/// More memory in the machine, free or in all, never makes a model fit worse.
pub proof fn lemma_fit_by_machine(
    memory: Double,
    small: HardwareProfile,
    large: HardwareProfile,
)
    requires
        double::at_most(small.available_ram_gb, large.available_ram_gb),
        double::at_most(small.total_ram_gb, large.total_ram_gb),
    ensures
        double::at_most(scoring::effective_ram(small), scoring::effective_ram(large)),
        double::at_most(scoring::fit_of(memory, small), scoring::fit_of(memory, large)),
{
    let part = double::nearest(72, 100);
    order::lemma_nearest_positive(72, 100);
    order::lemma_nearest_positive(75, 100);
    order::lemma_nearest_positive(85, 100);
    order::lemma_whole_exact(1);
    order::lemma_product_monotone(small.total_ram_gb, large.total_ram_gb, part);
    order::lemma_product_monotone(
        small.total_ram_gb,
        large.total_ram_gb,
        double::nearest(85, 100),
    );
    let a = scoring::effective_ram(small);
    let b = scoring::effective_ram(large);
    assert(double::at_most(a, b)) by {
        reveal(double::at_most);
        reveal(double::less);
    }
    order::lemma_product_monotone(a, b, double::nearest(75, 100));
    lemma_fit_grades();
    lemma_fit_bounds(memory, small);
    lemma_fit_bounds(memory, large);
    order::lemma_nearest_monotone(72, 100, 1, 1);
    reveal(double::at_most);
    reveal(double::less);
}

/// Less memory never fits worse.
pub proof fn lemma_fit_antitone(a: Double, b: Double, hardware: HardwareProfile)
    requires
        double::at_most(a, b),
    ensures
        double::at_most(scoring::fit_of(b, hardware), scoring::fit_of(a, hardware)),
{
    lemma_fit_grades();
    lemma_fit_bounds(a, hardware);
    lemma_fit_bounds(b, hardware);
    order::lemma_nearest_monotone(72, 100, 1, 1);
    reveal(double::at_most);
    reveal(double::less);
}

/// The fit is one of four grades, all of them from 0 to 1.
pub proof fn lemma_fit_bounds(memory: Double, hardware: HardwareProfile)
    ensures
        ({
            let fit = scoring::fit_of(memory, hardware);
            ||| fit == double::whole(1)
            ||| fit == double::nearest(72, 100)
            ||| fit == double::nearest(38, 100)
            ||| fit == double::nearest(8, 100)
        }),
        order::is_positive(scoring::fit_of(memory, hardware)),
        double::at_most(scoring::fit_of(memory, hardware), double::whole(1)),
{
    order::lemma_nearest_positive(1, 1);
    order::lemma_nearest_positive(72, 100);
    order::lemma_nearest_positive(38, 100);
    order::lemma_nearest_positive(8, 100);
    order::lemma_nearest_monotone(1, 1, 1, 1);
    order::lemma_nearest_monotone(72, 100, 1, 1);
    order::lemma_nearest_monotone(38, 100, 1, 1);
    order::lemma_nearest_monotone(8, 100, 1, 1);
}

/// A number of thousandths, a thousand of them at most, is shown as it is.
pub proof fn lemma_thousandths_kept(k: nat)
    requires
        k <= 1000,
    ensures
        scoring::thousandths(double::nearest(k, 1000)) == double::nearest(k, 1000),
{
    let span = pow2(20);
    let m = k * span / 1000;
    let x = double::nearest(k, 1000);
    let thousand = double::whole(1000);
    let y = double::product(x, thousand);
    lemma2_to64();
    lemma_fundamental_div_mod((k * span) as int, 1000);
    order::lemma_whole_exact(1000);
    order::lemma_whole_exact(k);
    order::lemma_nearest_monotone(m, span, k, 1000);
    order::lemma_nearest_monotone(k, 1000, m + 1, span);
    order::lemma_product_monotone(double::nearest(m, span), x, thousand);
    order::lemma_product_monotone(x, double::nearest(m + 1, span), thousand);
    order::lemma_product_exact(m, 20, 1000);
    order::lemma_product_exact(m + 1, 20, 1000);
    double::lemma_product_is_number(x, thousand);
    order::lemma_nearest_monotone(k, 1000, 1, 1);
    order::lemma_product_monotone(x, double::whole(1), thousand);
    order::lemma_product_whole(1, 1000);
    let r = order::lemma_rounded_whole(y, 1000);
    if double::at_most(double::whole(k), y) {
        order::lemma_nearest_less((m + 1) * 1000, span, 2 * k + 1, 2, 4 * k + 1, 2);
        assert(double::less(y, double::nearest(2 * k + 1, 2))) by {
            reveal(double::at_most);
            reveal(double::less);
        }
    } else {
        assert(double::at_most(y, double::whole(k))) by {
            reveal(double::at_most);
        }
        if k == 0 {
            double::lemma_whole_zero();
            order::lemma_pattern_order(double::whole(0), y);
        } else {
            order::lemma_nearest_monotone((2 * k - 1) as nat, 2, m * 1000, span);
            assert(double::at_most(double::nearest((2 * k - 1) as nat, 2), y)) by {
                reveal(double::at_most);
            }
        }
    }
    assert(r == k);
    order::lemma_quotient_whole(k, 1000);
}

/// A score from 0 to 1 is shown as a number of thousandths from 0 to 1000.
pub proof fn lemma_shown_in_thousandths(x: Double) -> (k: nat)
    requires
        order::is_natural(x),
        double::at_most(x, double::whole(1)),
    ensures
        k <= 1000,
        scoring::thousandths(x) == double::nearest(k, 1000),
{
    let thousand = double::whole(1000);
    order::lemma_whole_exact(1000);
    order::lemma_product_monotone(x, double::whole(1), thousand);
    order::lemma_product_whole(1, 1000);
    double::lemma_product_is_number(x, thousand);
    let k = order::lemma_rounded_whole(double::product(x, thousand), 1000);
    order::lemma_quotient_whole(k, 1000);
    k
}

/// The verdict on a model that takes too much memory.
pub open spec fn rejection() -> Seq<char> {
    "Not recommended for this computer."@
}

/// A recommendation shows a fit of more than 0.7 where the model takes no more memory than
/// it may. Otherwise it shows one of less than 0.4, and advises against the model.
pub proof fn lemma_recommendation_fit(
    candidate: CandidateView,
    hardware: HardwareProfile,
    task: Seq<char>,
    preference: Double,
    download_log: Double,
)
    ensures
        ({
            let r = scoring::scored(candidate, hardware, task, preference, download_log);
            let fits = double::at_most(
                scoring::memory_of(candidate),
                scoring::effective_ram(hardware),
            );
            &&& fits <==> double::less(double::nearest(7, 10), r.fit_score)
            &&& !fits <==> double::less(r.fit_score, double::nearest(4, 10))
            &&& !fits <==> r.decision == rejection()
        }),
{
    let memory = scoring::memory_of(candidate);
    let fit = scoring::fit_of(memory, hardware);
    lemma_fit_tells(memory, hardware);
    lemma_fit_bounds(memory, hardware);
    lemma_thousandths_kept(1000);
    lemma_thousandths_kept(720);
    lemma_thousandths_kept(380);
    lemma_thousandths_kept(80);
    order::lemma_nearest_same(1000, 1000, 1, 1);
    order::lemma_nearest_same(720, 1000, 72, 100);
    order::lemma_nearest_same(380, 1000, 38, 100);
    order::lemma_nearest_same(80, 1000, 8, 100);
    assert(scoring::thousandths(fit) == fit);
    lemma_fit_grades();
    lemma_verdicts_differ();
    reveal(double::at_most);
    reveal(double::less);
}

/// The other verdicts are not that one.
proof fn lemma_verdicts_differ()
    ensures
        "Best for fast, low-friction local chat."@ != rejection(),
        "Best quality option that still appears to fit."@ != rejection(),
        "Balanced recommendation for this computer."@ != rejection(),
{
    reveal_strlit("Not recommended for this computer.");
    reveal_strlit("Best for fast, low-friction local chat.");
    reveal_strlit("Best quality option that still appears to fit.");
    reveal_strlit("Balanced recommendation for this computer.");
    assert(rejection()[0] == 'N');
    assert("Best for fast, low-friction local chat."@[0] == 'B');
    assert("Best quality option that still appears to fit."@[0] == 'B');
    assert("Balanced recommendation for this computer."@[0] == 'B');
}

proof fn lemma_parameters_natural(candidate: CandidateView, default: nat)
    requires
        catalog::is_sized(candidate),
        default < 1000,
    ensures
        order::is_natural(scoring::parameters_or(candidate, default)),
{
    order::lemma_whole_exact(default);
}

/// The memory that a model takes is a number, and not a negative one.
pub proof fn lemma_memory_natural(candidate: CandidateView)
    requires
        catalog::is_sized(candidate),
    ensures
        order::is_natural(scoring::memory_of(candidate)),
{
    let rate = scoring::memory_rate(scoring::precision_of(candidate.quantization));
    let size = match candidate.size_gb {
        Some(size) => size,
        None => double::whole(0),
    };
    order::lemma_nearest_positive(125, 100);
    order::lemma_nearest_positive(75, 100);
    order::lemma_nearest_positive(rate, 100);
    lemma_parameters_natural(candidate, 7);
    order::lemma_whole_exact(0);
    double::lemma_product_is_number(size, double::nearest(125, 100));
    double::lemma_product_is_number(
        scoring::parameters_or(candidate, 7),
        double::nearest(rate, 100),
    );
    order::lemma_sum_natural(
        double::product(size, double::nearest(125, 100)),
        double::nearest(75, 100),
    );
    order::lemma_sum_natural(
        double::product(scoring::parameters_or(candidate, 7), double::nearest(rate, 100)),
        double::nearest(125, 100),
    );
}

/// A file of more bytes never takes less memory.
pub proof fn lemma_memory_by_size(candidate: CandidateView, small: Double, large: Double)
    requires
        double::at_most(small, large),
    ensures
        double::at_most(
            scoring::memory_of(CandidateView { size_gb: Some(small), ..candidate }),
            scoring::memory_of(CandidateView { size_gb: Some(large), ..candidate }),
        ),
{
    let factor = double::nearest(125, 100);
    order::lemma_nearest_positive(125, 100);
    order::lemma_nearest_positive(75, 100);
    order::lemma_product_monotone(small, large, factor);
    order::lemma_sum_monotone(
        double::product(small, factor),
        double::product(large, factor),
        double::nearest(75, 100),
    );
}

/// Of a model whose file size is not known, a coarser precision never takes more memory.
pub proof fn lemma_memory_by_precision(
    candidate: CandidateView,
    coarse: Option<Seq<char>>,
    fine: Option<Seq<char>>,
)
    requires
        candidate.size_gb is None,
        catalog::is_sized(candidate),
        scoring::memory_rate(scoring::precision_of(coarse)) <= scoring::memory_rate(
            scoring::precision_of(fine),
        ),
    ensures
        double::at_most(
            scoring::memory_of(CandidateView { quantization: coarse, ..candidate }),
            scoring::memory_of(CandidateView { quantization: fine, ..candidate }),
        ),
{
    let parameters = scoring::parameters_or(candidate, 7);
    let a = scoring::memory_rate(scoring::precision_of(coarse));
    let b = scoring::memory_rate(scoring::precision_of(fine));
    lemma_parameters_natural(candidate, 7);
    order::lemma_nearest_positive(a, 100);
    order::lemma_nearest_positive(b, 100);
    order::lemma_nearest_positive(125, 100);
    order::lemma_nearest_monotone(a, 100, b, 100);
    order::lemma_product_commutes(parameters, double::nearest(a, 100));
    order::lemma_product_commutes(parameters, double::nearest(b, 100));
    if parameters.is_finite() {
        lemma_product_by_natural(double::nearest(a, 100), double::nearest(b, 100), parameters);
    } else {
        reveal(double::product);
        reveal(double::at_most);
    }
    order::lemma_sum_monotone(
        double::product(parameters, double::nearest(a, 100)),
        double::product(parameters, double::nearest(b, 100)),
        double::nearest(125, 100),
    );
}

/// The greater of two finite numbers has the greater product with one that is not negative.
proof fn lemma_product_by_natural(a: Double, b: Double, c: Double)
    requires
        double::at_most(a, b),
        a.is_finite(),
        b.is_finite(),
        c.is_finite(),
        !c.is_negative(),
    ensures
        double::at_most(double::product(a, c), double::product(b, c)),
{
    if c.magnitude() > 0 {
        order::lemma_product_monotone(a, b, c);
    } else {
        lemma_product_zero(a, c);
        lemma_product_zero(b, c);
        order::lemma_pattern_order(double::product(a, c), double::product(b, c));
    }
}

proof fn lemma_product_zero(a: Double, c: Double)
    requires
        a.is_finite(),
        c.magnitude() == 0,
    ensures
        !double::product(a, c).is_nan(),
        double::product(a, c).magnitude() == 0,
{
    reveal(double::product);
    double::lemma_zero_units();
    lemma_pow2_pos(1074);
    let u = double::units_of(a.magnitude());
    assert(u * 0 == 0);
    double::lemma_round_zero(double::one_in_units());
}

/// What fits on the graphics adapter still fits if it takes less memory.
pub proof fn lemma_offload_antitone(a: Double, b: Double, hardware: HardwareProfile)
    requires
        double::at_most(a, b),
        scoring::offloads(b, hardware),
    ensures
        scoring::offloads(a, hardware),
{
    order::lemma_nearest_positive(72, 100);
    order::lemma_product_monotone(a, b, double::nearest(72, 100));
    reveal(double::at_most);
}

/// Whether a number is from 0 to 1.
pub open spec fn is_fraction(x: Double) -> bool {
    double::at_most(double::whole(0), x) && double::at_most(x, double::whole(1))
}

/// A number from 0 to 1 is finite.
proof fn lemma_fraction_finite(x: Double)
    requires
        is_fraction(x),
    ensures
        x.is_finite(),
        x.is_negative() ==> x.magnitude() == 0,
{
    assert(!x.is_nan()) by {
        reveal(double::at_most);
    }
    double::lemma_whole_zero();
    order::lemma_whole_exact(1);
    order::lemma_pattern_order(double::whole(0), x);
    order::lemma_pattern_order(x, double::whole(1));
}

/// A number that is not negative and at most 1 is from 0 to 1.
proof fn lemma_is_fraction(x: Double)
    requires
        order::is_natural(x),
        double::at_most(x, double::whole(1)),
    ensures
        is_fraction(x),
{
    double::lemma_whole_zero();
    order::lemma_pattern_order(double::whole(0), x);
}

/// The share of a number in a scale that ends at `full`: from 0 to 1.
proof fn lemma_share(n: Double, full: nat)
    requires
        order::is_natural(n),
        0 < full < 10000,
    ensures
        ({
            let share = double::smaller(
                double::quotient(n, double::whole(full)),
                double::whole(1),
            );
            is_fraction(share) && !share.is_negative()
        }),
{
    let q = double::quotient(n, double::whole(full));
    order::lemma_whole_exact(full);
    order::lemma_whole_exact(1);
    double::lemma_quotient_is_number(n, double::whole(full));
    order::lemma_reflexive(q);
    order::lemma_smaller_monotone(q, q, double::whole(1));
    lemma_is_fraction(double::smaller(q, double::whole(1)));
}

/// What a number from 0 to 1 comes to, weighted: from 0 to the weight.
proof fn lemma_weighted(x: Double, weight: Double)
    requires
        is_fraction(x),
        order::is_positive(weight),
    ensures
        double::product(x, weight).is_finite(),
        double::product(x, weight).is_negative() == x.is_negative(),
        double::at_most(double::whole(0), double::product(x, weight)),
        double::at_most(double::product(x, weight), weight),
{
    let y = double::product(x, weight);
    lemma_fraction_finite(x);
    order::lemma_whole_exact(1);
    order::lemma_product_monotone(x, double::whole(1), weight);
    order::lemma_product_commutes(double::whole(1), weight);
    order::lemma_product_one(weight);
    double::lemma_product_is_number(x, weight);
    double::lemma_whole_zero();
    order::lemma_pattern_order(double::whole(0), y);
    if x.is_negative() {
        lemma_product_zero_left(x, weight);
    } else {
        order::lemma_bounded_finite(y, weight);
    }
}

proof fn lemma_product_zero_left(x: Double, weight: Double)
    requires
        x.magnitude() == 0,
        weight.is_finite(),
    ensures
        double::product(x, weight).magnitude() == 0,
{
    lemma_product_zero(weight, x);
    order::lemma_product_commutes(x, weight);
}

/// The quality is a number from 0 to 1.
pub proof fn lemma_quality_bounds(family: nat, parameters: Double)
    requires
        0 < family <= 100,
        order::is_natural(parameters),
    ensures
        order::is_natural(scoring::quality_from(family, parameters)),
        double::at_most(scoring::quality_from(family, parameters), double::whole(1)),
{
    let base = double::product(double::nearest(family, 100), double::nearest(82, 100));
    let share = double::smaller(
        double::quotient(parameters, double::whole(14)),
        double::whole(1),
    );
    let part = double::product(share, double::nearest(18, 100));
    let total = double::sum(base, part);
    order::lemma_nearest_positive(family, 100);
    order::lemma_nearest_positive(82, 100);
    order::lemma_nearest_positive(18, 100);
    double::lemma_product_is_number(double::nearest(family, 100), double::nearest(82, 100));
    lemma_share(parameters, 14);
    lemma_weighted(share, double::nearest(18, 100));
    order::lemma_sum_natural(base, part);
    order::lemma_whole_exact(1);
    order::lemma_reflexive(total);
    order::lemma_smaller_monotone(total, total, double::whole(1));
}

/// More parameters never make for less quality.
pub proof fn lemma_quality_by_parameters(family: nat, few: Double, many: Double)
    requires
        0 < family <= 100,
        double::at_most(few, many),
    ensures
        double::at_most(
            scoring::quality_from(family, few),
            scoring::quality_from(family, many),
        ),
{
    let base = double::product(double::nearest(family, 100), double::nearest(82, 100));
    let one = double::whole(1);
    let fourteen = double::whole(14);
    let rate = double::nearest(18, 100);
    let few_share = double::smaller(double::quotient(few, fourteen), one);
    let many_share = double::smaller(double::quotient(many, fourteen), one);
    let few_part = double::product(few_share, rate);
    let many_part = double::product(many_share, rate);
    order::lemma_whole_exact(1);
    order::lemma_whole_exact(14);
    order::lemma_nearest_positive(18, 100);
    order::lemma_nearest_positive(family, 100);
    order::lemma_nearest_positive(82, 100);
    order::lemma_nearest_monotone(family, 100, 1, 1);
    lemma_is_fraction(double::nearest(family, 100));
    lemma_weighted(double::nearest(family, 100), double::nearest(82, 100));
    order::lemma_quotient_monotone(few, many, fourteen);
    order::lemma_smaller_monotone(
        double::quotient(few, fourteen),
        double::quotient(many, fourteen),
        one,
    );
    order::lemma_product_monotone(few_share, many_share, rate);
    order::lemma_sum_monotone(few_part, many_part, base);
    order::lemma_sum_commutes(few_part, base);
    order::lemma_sum_commutes(many_part, base);
    order::lemma_smaller_monotone(
        double::sum(base, few_part),
        double::sum(base, many_part),
        one,
    );
}

/// What speed is lost to the number of parameters.
proof fn lemma_penalty(n: Double)
    requires
        order::is_natural(n),
    ensures
        ({
            let penalty = double::product(
                double::smaller(double::quotient(n, double::whole(20)), double::whole(1)),
                double::nearest(35, 100),
            );
            penalty.is_finite() && !penalty.is_negative()
        }),
{
    order::lemma_nearest_positive(35, 100);
    lemma_share(n, 20);
    lemma_weighted(
        double::smaller(double::quotient(n, double::whole(20)), double::whole(1)),
        double::nearest(35, 100),
    );
}

/// The speed is a number from 0.05 to 1.
pub proof fn lemma_speed_bounds(candidate: CandidateView, offload: bool)
    requires
        catalog::is_sized(candidate),
    ensures
        double::at_most(double::nearest(5, 100), scoring::speed_of(candidate, offload)),
        double::at_most(scoring::speed_of(candidate, offload), double::whole(1)),
{
    lemma_parameters_natural(candidate, 7);
    order::lemma_reflexive(scoring::parameters_or(candidate, 7));
    lemma_speed_monotone(candidate, candidate, offload, offload);
}

/// A precision that runs faster, fewer parameters or the graphics adapter never make a
/// model slower.
pub proof fn lemma_speed_monotone(
    slow: CandidateView,
    fast: CandidateView,
    slow_offload: bool,
    fast_offload: bool,
)
    requires
        catalog::is_sized(slow),
        catalog::is_sized(fast),
        scoring::speed_rate(scoring::precision_of(slow.quantization)) <= scoring::speed_rate(
            scoring::precision_of(fast.quantization),
        ),
        double::at_most(scoring::parameters_or(fast, 7), scoring::parameters_or(slow, 7)),
        slow_offload ==> fast_offload,
    ensures
        double::at_most(
            scoring::speed_of(slow, slow_offload),
            scoring::speed_of(fast, fast_offload),
        ),
        double::at_most(double::nearest(5, 100), scoring::speed_of(slow, slow_offload)),
        double::at_most(scoring::speed_of(fast, fast_offload), double::whole(1)),
{
    let one = double::whole(1);
    let twenty = double::whole(20);
    let rate = double::nearest(35, 100);
    let a = scoring::speed_rate(scoring::precision_of(slow.quantization));
    let b = scoring::speed_rate(scoring::precision_of(fast.quantization));
    let m = scoring::parameters_or(slow, 7);
    let n = scoring::parameters_or(fast, 7);
    let p = double::product(double::smaller(double::quotient(m, twenty), one), rate);
    let q = double::product(double::smaller(double::quotient(n, twenty), one), rate);
    lemma_parameters_natural(slow, 7);
    lemma_parameters_natural(fast, 7);
    lemma_penalty(m);
    lemma_penalty(n);
    order::lemma_whole_exact(1);
    order::lemma_whole_exact(20);
    order::lemma_nearest_positive(35, 100);
    order::lemma_quotient_monotone(n, m, twenty);
    order::lemma_smaller_monotone(double::quotient(n, twenty), double::quotient(m, twenty), one);
    order::lemma_product_monotone(
        double::smaller(double::quotient(n, twenty), one),
        double::smaller(double::quotient(m, twenty), one),
        rate,
    );
    assert(double::at_most(q, p));
    order::lemma_opposite_antitone(q, p);
    let x = double::nearest(a, 100);
    let y = double::nearest(b, 100);
    order::lemma_nearest_positive(a, 100);
    order::lemma_nearest_positive(b, 100);
    order::lemma_nearest_monotone(a, 100, b, 100);
    let np = double::opposite(p);
    let nq = double::opposite(q);
    order::lemma_sum_monotone(x, y, np);
    order::lemma_sum_monotone(np, nq, y);
    order::lemma_sum_commutes(np, y);
    order::lemma_sum_commutes(nq, y);
    assert(double::at_most(double::sum(x, np), double::sum(y, nq))) by {
        reveal(double::at_most);
    }
    let s = if slow_offload {
        double::nearest(20, 100)
    } else {
        double::whole(0)
    };
    let t = if fast_offload {
        double::nearest(20, 100)
    } else {
        double::whole(0)
    };
    order::lemma_nearest_positive(20, 100);
    order::lemma_whole_exact(0);
    order::lemma_nearest_monotone(0, 1, 20, 100);
    order::lemma_reflexive(s);
    lemma_sum_of_greater(double::sum(x, np), double::sum(y, nq), s, t);
    order::lemma_nearest_monotone(5, 100, 1, 1);
    order::lemma_confined_monotone(
        double::sum(double::sum(x, np), s),
        double::sum(double::sum(y, nq), t),
        double::nearest(5, 100),
        one,
    );
}

/// Greater terms have a greater sum, where the second ones are finite.
proof fn lemma_sum_of_greater(a: Double, b: Double, c: Double, d: Double)
    requires
        double::at_most(a, b),
        double::at_most(c, d),
        c.is_finite(),
        d.is_finite(),
    ensures
        double::at_most(double::sum(a, c), double::sum(b, d)),
{
    order::lemma_sum_monotone(a, b, c);
    if b.is_finite() {
        order::lemma_sum_monotone(c, d, b);
        order::lemma_sum_commutes(c, b);
        order::lemma_sum_commutes(d, b);
    } else {
        assert(!b.is_nan()) by {
            reveal(double::at_most);
        }
        order::lemma_sum_is_number(b, c);
        order::lemma_sum_is_number(b, d);
    }
    reveal(double::at_most);
}

/// On a measured machine the memory that a model may take is finite.
pub proof fn lemma_effective_ram_finite(hardware: HardwareProfile)
    requires
        hardware::is_measured(hardware),
    ensures
        order::is_positive(scoring::effective_ram(hardware)),
{
    let part = double::product(hardware.total_ram_gb, double::nearest(72, 100));
    let effective = scoring::effective_ram(hardware);
    order::lemma_nearest_positive(72, 100);
    double::lemma_product_is_number(hardware.total_ram_gb, double::nearest(72, 100));
    order::lemma_whole_exact(1);
    order::lemma_reflexive(hardware.available_ram_gb);
    order::lemma_smaller_monotone(hardware.available_ram_gb, hardware.available_ram_gb, part);
    lemma_effective_ram(hardware);
    assert(!effective.is_nan()) by {
        reveal(double::at_most);
    }
    order::lemma_pattern_order(double::whole(1), effective);
    if effective != double::whole(1) {
        order::lemma_bounded_finite(effective, hardware.available_ram_gb);
    }
}

/// The safety margin is a number from 0 to 1, and more memory never makes it greater.
pub proof fn lemma_safety_antitone(a: Double, b: Double, hardware: HardwareProfile)
    requires
        hardware::is_measured(hardware),
        double::at_most(a, b),
    ensures
        double::at_most(scoring::safety_of(b, hardware), scoring::safety_of(a, hardware)),
        double::at_most(double::whole(0), scoring::safety_of(b, hardware)),
        double::at_most(scoring::safety_of(a, hardware), double::whole(1)),
{
    let effective = scoring::effective_ram(hardware);
    let factor = double::nearest(15, 10);
    lemma_effective_ram_finite(hardware);
    order::lemma_opposite_antitone(a, b);
    order::lemma_sum_monotone(double::opposite(b), double::opposite(a), effective);
    order::lemma_sum_commutes(double::opposite(a), effective);
    order::lemma_sum_commutes(double::opposite(b), effective);
    let da = double::difference(effective, a);
    let db = double::difference(effective, b);
    order::lemma_quotient_monotone(db, da, effective);
    order::lemma_nearest_positive(15, 10);
    order::lemma_product_monotone(
        double::quotient(db, effective),
        double::quotient(da, effective),
        factor,
    );
    order::lemma_nearest_monotone(0, 1, 1, 1);
    order::lemma_confined_monotone(
        double::product(double::quotient(db, effective), factor),
        double::product(double::quotient(da, effective), factor),
        double::whole(0),
        double::whole(1),
    );
}

/// The popularity is a number from 0 to 1.
pub proof fn lemma_popularity_bounds(download_log: Double, likes: u64)
    requires
        order::is_natural(download_log),
    ensures
        order::is_natural(scoring::popularity_of(download_log, likes)),
        double::at_most(scoring::popularity_of(download_log, likes), double::whole(1)),
{
    order::lemma_reflexive(download_log);
    lemma_popularity_monotone(download_log, download_log, likes, likes);
}

/// More downloads or more likes never make a model less popular.
pub proof fn lemma_popularity_monotone(
    few_log: Double,
    many_log: Double,
    few_likes: u64,
    many_likes: u64,
)
    requires
        order::is_natural(few_log),
        order::is_natural(many_log),
        double::at_most(few_log, many_log),
        few_likes <= many_likes,
    ensures
        double::at_most(
            scoring::popularity_of(few_log, few_likes),
            scoring::popularity_of(many_log, many_likes),
        ),
        order::is_natural(scoring::popularity_of(few_log, few_likes)),
        double::at_most(scoring::popularity_of(many_log, many_likes), double::whole(1)),
{
    let six = double::whole(6);
    let full = double::whole(3000);
    let one = double::whole(1);
    let m = scoring::counted_likes(few_likes);
    let n = scoring::counted_likes(many_likes);
    order::lemma_whole_exact(6);
    order::lemma_whole_exact(3000);
    order::lemma_whole_exact(1);
    order::lemma_whole_exact(m);
    order::lemma_whole_exact(n);
    order::lemma_quotient_monotone(few_log, many_log, six);
    order::lemma_quotient_whole(m, 3000);
    order::lemma_quotient_whole(n, 3000);
    order::lemma_nearest_monotone(m, 3000, n, 3000);
    order::lemma_nearest_monotone(n, 3000, 1, 1);
    double::lemma_quotient_is_number(few_log, six);
    double::lemma_quotient_is_number(many_log, six);
    let a = double::quotient(few_log, six);
    let b = double::quotient(many_log, six);
    let c = double::quotient(double::whole(m), full);
    let d = double::quotient(double::whole(n), full);
    order::lemma_bounded_finite(d, one);
    order::lemma_bounded_finite(c, d);
    lemma_sum_of_greater(a, b, c, d);
    order::lemma_sum_natural(a, c);
    order::lemma_sum_natural(b, d);
    order::lemma_smaller_monotone(double::sum(a, c), double::sum(b, d), one);
    order::lemma_reflexive(double::sum(b, d));
    order::lemma_smaller_monotone(double::sum(b, d), double::sum(b, d), one);
}

/// A greater preference never makes quality count less, nor speed count more. Both count
/// for something whatever the preference.
pub proof fn lemma_weights(low: Double, high: Double)
    requires
        is_fraction(low),
        is_fraction(high),
        double::at_most(low, high),
    ensures
        double::at_most(scoring::quality_weight(low), scoring::quality_weight(high)),
        double::at_most(scoring::speed_weight(high), scoring::speed_weight(low)),
        order::is_positive(scoring::quality_weight(low)),
        order::is_positive(scoring::quality_weight(high)),
        order::is_positive(scoring::speed_weight(low)),
        order::is_positive(scoring::speed_weight(high)),
{
    let base = double::nearest(12, 100);
    let slope = double::nearest(18, 100);
    let start = double::nearest(25, 100);
    order::lemma_nearest_positive(12, 100);
    order::lemma_nearest_positive(18, 100);
    order::lemma_nearest_positive(25, 100);
    order::lemma_product_monotone(low, high, slope);
    lemma_weighted(low, slope);
    lemma_weighted(high, slope);
    let a = double::product(low, slope);
    let b = double::product(high, slope);
    order::lemma_sum_monotone(a, b, base);
    order::lemma_sum_commutes(a, base);
    order::lemma_sum_commutes(b, base);
    lemma_weight_positive(a, base, slope);
    lemma_weight_positive(b, base, slope);
    order::lemma_product_monotone(low, high, base);
    lemma_weighted(low, base);
    lemma_weighted(high, base);
    let c = double::product(low, base);
    let d = double::product(high, base);
    order::lemma_opposite_antitone(c, d);
    order::lemma_sum_monotone(double::opposite(d), double::opposite(c), start);
    order::lemma_sum_commutes(double::opposite(c), start);
    order::lemma_sum_commutes(double::opposite(d), start);
    lemma2_to64();
    order::lemma_nearest_less(12, 100, 25, 100, 24, 7);
    lemma_rest_positive(c, base, start);
    lemma_rest_positive(d, base, start);
}

/// The sum of a base and a part of a slope is greater than zero, and finite.
proof fn lemma_weight_positive(a: Double, base: Double, slope: Double)
    requires
        a.is_finite(),
        double::at_most(double::whole(0), a),
        double::at_most(a, slope),
        base == double::nearest(12, 100),
        slope == double::nearest(18, 100),
    ensures
        order::is_positive(double::sum(base, a)),
{
    order::lemma_nearest_positive(12, 100);
    order::lemma_nearest_positive(18, 100);
    order::lemma_whole_exact(0);
    order::lemma_whole_exact(1);
    order::lemma_nearest_monotone(12, 100, 1, 4);
    order::lemma_nearest_monotone(18, 100, 1, 4);
    order::lemma_sum_positive(base, a);
    lemma2_to64();
    order::lemma_nearest_exact(1, 2);
    let quarter = double::nearest(1, 4);
    assert(double::at_most(a, quarter)) by {
        reveal(double::at_most);
    }
    lemma_sum_of_greater(base, quarter, a, quarter);
    order::lemma_sum_is_number(quarter, quarter);
    assert(double::sum(quarter, quarter).is_finite()) by {
        order::lemma_nearest_monotone(1, 4, 1, 1);
        order::lemma_double_finite(quarter);
    }
    order::lemma_bounded_finite(double::sum(base, a), double::sum(quarter, quarter));
}

/// What is left of a number after taking less than all of it is greater than zero.
proof fn lemma_rest_positive(c: Double, base: Double, start: Double)
    requires
        c.is_finite(),
        double::at_most(double::whole(0), c),
        double::at_most(c, base),
        double::less(base, start),
        order::is_positive(start),
    ensures
        order::is_positive(double::difference(start, c)),
{
    assert(double::less(c, start)) by {
        reveal(double::at_most);
        reveal(double::less);
    }
    order::lemma_difference_positive(start, c);
    order::lemma_whole_exact(0);
    double::lemma_whole_zero();
    let zero = double::whole(0);
    order::lemma_opposite_antitone(zero, c);
    order::lemma_sum_monotone(double::opposite(c), double::opposite(zero), start);
    order::lemma_sum_commutes(double::opposite(c), start);
    order::lemma_sum_commutes(double::opposite(zero), start);
    order::lemma_difference_zero(start);
    order::lemma_bounded_finite(double::difference(start, c), start);
}

/// The partial scores that go into the sum.
pub open spec fn are_fractions(
    fit: Double,
    quality: Double,
    speed: Double,
    safety: Double,
    popularity: Double,
) -> bool {
    &&& is_fraction(fit)
    &&& is_fraction(quality)
    &&& is_fraction(speed)
    &&& is_fraction(safety)
    &&& is_fraction(popularity)
}

/// The score is a number from 0 to 1. Greater partial scores, and suiting the task, never
/// make it smaller.
pub proof fn lemma_overall_monotone(
    fit: Double,
    quality: Double,
    speed: Double,
    safety: Double,
    popularity: Double,
    suited: bool,
    better_fit: Double,
    better_quality: Double,
    better_speed: Double,
    better_safety: Double,
    better_popularity: Double,
    better_suited: bool,
    preference: Double,
)
    requires
        are_fractions(fit, quality, speed, safety, popularity),
        are_fractions(
            better_fit,
            better_quality,
            better_speed,
            better_safety,
            better_popularity,
        ),
        is_fraction(preference),
        double::at_most(fit, better_fit),
        double::at_most(quality, better_quality),
        double::at_most(speed, better_speed),
        double::at_most(safety, better_safety),
        double::at_most(popularity, better_popularity),
        suited ==> better_suited,
    ensures
        ({
            let score = scoring::overall(
                fit,
                quality,
                speed,
                safety,
                popularity,
                preference,
                suited,
            );
            let better = scoring::overall(
                better_fit,
                better_quality,
                better_speed,
                better_safety,
                better_popularity,
                preference,
                better_suited,
            );
            &&& double::at_most(score, better)
            &&& double::at_most(double::whole(0), score)
            &&& double::at_most(better, double::whole(1))
        }),
{
    order::lemma_nearest_positive(37, 100);
    order::lemma_nearest_positive(15, 100);
    order::lemma_nearest_positive(8, 100);
    order::lemma_nearest_positive(6, 100);
    order::lemma_whole_exact(0);
    lemma_fraction_finite(preference);
    order::lemma_reflexive(preference);
    lemma_weights(preference, preference);
    let w1 = double::nearest(37, 100);
    let w2 = scoring::quality_weight(preference);
    let w3 = scoring::speed_weight(preference);
    let w4 = double::nearest(15, 100);
    let w5 = double::nearest(8, 100);
    lemma_term(fit, better_fit, w1);
    lemma_term(quality, better_quality, w2);
    lemma_term(speed, better_speed, w3);
    lemma_term(safety, better_safety, w4);
    lemma_term(popularity, better_popularity, w5);
    let a1 = double::product(fit, w1);
    let b1 = double::product(better_fit, w1);
    let a2 = double::sum(a1, double::product(quality, w2));
    let b2 = double::sum(b1, double::product(better_quality, w2));
    let a3 = double::sum(a2, double::product(speed, w3));
    let b3 = double::sum(b2, double::product(better_speed, w3));
    let a4 = double::sum(a3, double::product(safety, w4));
    let b4 = double::sum(b3, double::product(better_safety, w4));
    let a5 = double::sum(a4, double::product(popularity, w5));
    let b5 = double::sum(b4, double::product(better_popularity, w5));
    let s = if suited {
        double::nearest(6, 100)
    } else {
        double::whole(0)
    };
    let t = if better_suited {
        double::nearest(6, 100)
    } else {
        double::whole(0)
    };
    order::lemma_nearest_monotone(0, 1, 6, 100);
    order::lemma_reflexive(s);
    lemma_sum_of_greater(
        a1,
        b1,
        double::product(quality, w2),
        double::product(better_quality, w2),
    );
    lemma_sum_of_greater(a2, b2, double::product(speed, w3), double::product(better_speed, w3));
    lemma_sum_of_greater(a3, b3, double::product(safety, w4), double::product(better_safety, w4));
    lemma_sum_of_greater(
        a4,
        b4,
        double::product(popularity, w5),
        double::product(better_popularity, w5),
    );
    lemma_sum_of_greater(a5, b5, s, t);
    order::lemma_nearest_monotone(0, 1, 1, 1);
    order::lemma_confined_monotone(
        double::sum(a5, s),
        double::sum(b5, t),
        double::whole(0),
        double::whole(1),
    );
}

/// A weighted partial score and a greater one.
proof fn lemma_term(x: Double, better: Double, weight: Double)
    requires
        is_fraction(x),
        is_fraction(better),
        double::at_most(x, better),
        order::is_positive(weight),
    ensures
        double::at_most(double::product(x, weight), double::product(better, weight)),
        double::product(x, weight).is_finite(),
        double::product(better, weight).is_finite(),
{
    order::lemma_product_monotone(x, better, weight);
    lemma_weighted(x, weight);
    lemma_weighted(better, weight);
}

/// What goes into the score of a sized model on a measured machine is from 0 to 1.
proof fn lemma_parts_are_fractions(
    candidate: CandidateView,
    hardware: HardwareProfile,
    lower: Seq<char>,
    preference: Double,
    download_log: Double,
)
    requires
        hardware::is_measured(hardware),
        catalog::is_sized(candidate),
        !preference.is_nan(),
        order::is_natural(download_log),
    ensures
        ({
            let memory = scoring::memory_of(candidate);
            are_fractions(
                scoring::fit_of(memory, hardware),
                scoring::quality_from(
                    scoring::family_rate(lower),
                    scoring::parameters_or(candidate, 3),
                ),
                scoring::speed_of(candidate, scoring::offloads(memory, hardware)),
                scoring::safety_of(memory, hardware),
                scoring::popularity_of(download_log, candidate.likes),
            )
        }),
        is_fraction(double::confined(preference, double::whole(0), double::whole(1))),
{
    let memory = scoring::memory_of(candidate);
    let family = scoring::family_rate(lower);
    let parameters = scoring::parameters_or(candidate, 3);
    let speed = scoring::speed_of(candidate, scoring::offloads(memory, hardware));
    lemma_memory_natural(candidate);
    lemma_fit_bounds(memory, hardware);
    lemma_is_fraction(scoring::fit_of(memory, hardware));
    lemma_parameters_natural(candidate, 3);
    lemma_quality_bounds(family, parameters);
    lemma_is_fraction(scoring::quality_from(family, parameters));
    lemma_speed_bounds(candidate, scoring::offloads(memory, hardware));
    order::lemma_nearest_monotone(0, 1, 5, 100);
    assert(is_fraction(speed)) by {
        reveal(double::at_most);
    }
    order::lemma_reflexive(memory);
    lemma_safety_antitone(memory, memory, hardware);
    lemma_popularity_bounds(download_log, candidate.likes);
    lemma_is_fraction(scoring::popularity_of(download_log, candidate.likes));
    order::lemma_nearest_monotone(0, 1, 1, 1);
    order::lemma_reflexive(preference);
    order::lemma_confined_monotone(
        preference,
        preference,
        double::whole(0),
        double::whole(1),
    );
}

/// A model of the same precision and number of parameters that takes no more memory and is
/// as popular never scores worse.
proof fn lemma_better_scores(
    candidate: CandidateView,
    better: CandidateView,
    hardware: HardwareProfile,
    lower: Seq<char>,
    task: Seq<char>,
    preference: Double,
    download_log: Double,
    better_log: Double,
)
    requires
        hardware::is_measured(hardware),
        catalog::is_sized(candidate),
        catalog::is_sized(better),
        !preference.is_nan(),
        order::is_natural(download_log),
        order::is_natural(better_log),
        double::at_most(download_log, better_log),
        candidate.likes <= better.likes,
        candidate.quantization == better.quantization,
        candidate.parameter_billions == better.parameter_billions,
        double::at_most(scoring::memory_of(better), scoring::memory_of(candidate)),
    ensures
        ({
            let a = scoring::assessment_of(
                candidate,
                lower,
                hardware,
                task,
                preference,
                download_log,
            );
            let b = scoring::assessment_of(
                better,
                lower,
                hardware,
                task,
                preference,
                better_log,
            );
            &&& is_fraction(a.score)
            &&& is_fraction(b.score)
            &&& double::at_most(a.score, b.score)
        }),
{
    let held = double::confined(preference, double::whole(0), double::whole(1));
    let suited = scoring::suits(lower, task);
    let family = scoring::family_rate(lower);
    let quality = scoring::quality_from(family, scoring::parameters_or(candidate, 3));
    let m = scoring::memory_of(candidate);
    let n = scoring::memory_of(better);
    let slow = scoring::offloads(m, hardware);
    let fast = scoring::offloads(n, hardware);
    lemma_parts_are_fractions(candidate, hardware, lower, preference, download_log);
    lemma_parts_are_fractions(better, hardware, lower, preference, better_log);
    lemma_fit_antitone(n, m, hardware);
    lemma_safety_antitone(n, m, hardware);
    if slow {
        lemma_offload_antitone(n, m, hardware);
    }
    lemma_parameters_natural(candidate, 7);
    order::lemma_reflexive(scoring::parameters_or(candidate, 7));
    lemma_speed_monotone(candidate, better, slow, fast);
    lemma_popularity_monotone(download_log, better_log, candidate.likes, better.likes);
    assert(double::at_most(quality, quality)) by {
        reveal(double::at_most);
    }
    let speed = scoring::speed_of(candidate, slow);
    let better_speed = scoring::speed_of(better, fast);
    let p = scoring::popularity_of(download_log, candidate.likes);
    let q = scoring::popularity_of(better_log, better.likes);
    lemma_overall_monotone(
        scoring::fit_of(m, hardware),
        quality,
        speed,
        scoring::safety_of(m, hardware),
        p,
        suited,
        scoring::fit_of(n, hardware),
        quality,
        better_speed,
        scoring::safety_of(n, hardware),
        q,
        suited,
        held,
    );
    reveal(double::at_most);
}

/// On a measured machine and for a sized model every score is a number from 0 to 1.
pub proof fn lemma_scores_are_fractions(
    candidate: CandidateView,
    hardware: HardwareProfile,
    lower: Seq<char>,
    task: Seq<char>,
    preference: Double,
    download_log: Double,
)
    requires
        hardware::is_measured(hardware),
        catalog::is_sized(candidate),
        !preference.is_nan(),
        order::is_natural(download_log),
    ensures
        ({
            let a = scoring::assessment_of(
                candidate,
                lower,
                hardware,
                task,
                preference,
                download_log,
            );
            &&& is_fraction(a.fit)
            &&& is_fraction(a.quality)
            &&& is_fraction(a.speed)
            &&& is_fraction(a.safety)
            &&& is_fraction(a.score)
        }),
{
    lemma_parts_are_fractions(candidate, hardware, lower, preference, download_log);
    lemma_memory_natural(candidate);
    order::lemma_reflexive(download_log);
    order::lemma_reflexive(scoring::memory_of(candidate));
    lemma_better_scores(
        candidate,
        candidate,
        hardware,
        lower,
        task,
        preference,
        download_log,
        download_log,
    );
}

/// The greater of two numbers is not shown as the smaller one.
pub proof fn lemma_thousandths_monotone(a: Double, b: Double)
    requires
        double::at_most(a, b),
    ensures
        double::at_most(scoring::thousandths(a), scoring::thousandths(b)),
{
    let thousand = double::whole(1000);
    order::lemma_whole_exact(1000);
    order::lemma_product_monotone(a, b, thousand);
    order::lemma_rounded_monotone(double::product(a, thousand), double::product(b, thousand));
    order::lemma_quotient_monotone(
        double::rounded(double::product(a, thousand)),
        double::rounded(double::product(b, thousand)),
        thousand,
    );
}

/// A number from 0 to 1 is shown as one.
proof fn lemma_thousandths_fraction(x: Double)
    requires
        is_fraction(x),
    ensures
        is_fraction(scoring::thousandths(x)),
{
    lemma_thousandths_monotone(double::whole(0), x);
    lemma_thousandths_monotone(x, double::whole(1));
    lemma_thousandths_kept(0);
    lemma_thousandths_kept(1000);
    order::lemma_nearest_same(0, 1000, 0, 1);
    order::lemma_nearest_same(1000, 1000, 1, 1);
}

/// On a measured machine and for a sized model every shown score is a number from 0 to 1.
pub proof fn lemma_shown_scores_are_fractions(
    candidate: CandidateView,
    hardware: HardwareProfile,
    task: Seq<char>,
    preference: Double,
    download_log: Double,
)
    requires
        hardware::is_measured(hardware),
        catalog::is_sized(candidate),
        !preference.is_nan(),
        order::is_natural(download_log),
    ensures
        ({
            let r = scoring::scored(candidate, hardware, task, preference, download_log);
            &&& is_fraction(r.fit_score)
            &&& is_fraction(r.quality_score)
            &&& is_fraction(r.speed_score)
            &&& is_fraction(r.safety_margin_score)
            &&& is_fraction(r.score)
        }),
{
    let lower = text::lowercase(scoring::description(candidate));
    let a = scoring::assessment_of(candidate, lower, hardware, task, preference, download_log);
    lemma_scores_are_fractions(candidate, hardware, lower, task, preference, download_log);
    lemma_thousandths_fraction(a.fit);
    lemma_thousandths_fraction(a.quality);
    lemma_thousandths_fraction(a.speed);
    lemma_thousandths_fraction(a.safety);
    lemma_thousandths_fraction(a.score);
}

/// A smaller file of the same model never scores worse.
pub proof fn lemma_smaller_file_scores_no_worse(
    candidate: CandidateView,
    small: Double,
    large: Double,
    hardware: HardwareProfile,
    task: Seq<char>,
    preference: Double,
    download_log: Double,
)
    requires
        hardware::is_measured(hardware),
        catalog::is_sized(candidate),
        order::is_natural(small),
        order::is_natural(large),
        double::at_most(small, large),
        !preference.is_nan(),
        order::is_natural(download_log),
    ensures
        double::at_most(
            scoring::scored(
                CandidateView { size_gb: Some(large), ..candidate },
                hardware,
                task,
                preference,
                download_log,
            ).score,
            scoring::scored(
                CandidateView { size_gb: Some(small), ..candidate },
                hardware,
                task,
                preference,
                download_log,
            ).score,
        ),
{
    let worse = CandidateView { size_gb: Some(large), ..candidate };
    let better = CandidateView { size_gb: Some(small), ..candidate };
    let lower = text::lowercase(scoring::description(candidate));
    lemma_memory_by_size(candidate, small, large);
    order::lemma_reflexive(download_log);
    lemma_better_scores(
        worse,
        better,
        hardware,
        lower,
        task,
        preference,
        download_log,
        download_log,
    );
    lemma_thousandths_monotone(
        scoring::assessment_of(worse, lower, hardware, task, preference, download_log).score,
        scoring::assessment_of(better, lower, hardware, task, preference, download_log).score,
    );
}

/// More downloads and more likes never lower the score of a model.
pub proof fn lemma_popular_model_scores_no_worse(
    candidate: CandidateView,
    likes: u64,
    hardware: HardwareProfile,
    task: Seq<char>,
    preference: Double,
    few_log: Double,
    many_log: Double,
)
    requires
        hardware::is_measured(hardware),
        catalog::is_sized(candidate),
        candidate.likes <= likes,
        !preference.is_nan(),
        order::is_natural(few_log),
        order::is_natural(many_log),
        double::at_most(few_log, many_log),
    ensures
        double::at_most(
            scoring::scored(candidate, hardware, task, preference, few_log).score,
            scoring::scored(
                CandidateView { likes, ..candidate },
                hardware,
                task,
                preference,
                many_log,
            ).score,
        ),
{
    let better = CandidateView { likes, ..candidate };
    let lower = text::lowercase(scoring::description(candidate));
    lemma_memory_natural(candidate);
    order::lemma_reflexive(scoring::memory_of(candidate));
    lemma_better_scores(
        candidate,
        better,
        hardware,
        lower,
        task,
        preference,
        few_log,
        many_log,
    );
    lemma_thousandths_monotone(
        scoring::assessment_of(candidate, lower, hardware, task, preference, few_log).score,
        scoring::assessment_of(better, lower, hardware, task, preference, many_log).score,
    );
}

/// A recommendation says that a model fits exactly where its memory allows it, and warns of
/// tight memory exactly where it does not. It puts all layers on the graphics adapter exactly
/// where most of the model fits there, and has one caution more where it does not. Nothing is
/// recommended without a reason.
pub proof fn lemma_recommendation_explains(
    candidate: CandidateView,
    hardware: HardwareProfile,
    task: Seq<char>,
    preference: Double,
    download_log: Double,
)
    ensures
        ({
            let r = scoring::scored(candidate, hardware, task, preference, download_log);
            let fits = double::at_most(
                scoring::memory_of(candidate),
                scoring::effective_ram(hardware),
            );
            &&& r.reasons.len() > 0
            &&& r.reasons.contains(scoring::fit_reason()) <==> fits
            &&& r.cautions.contains(scoring::memory_caution()) <==> !fits
            &&& r.gpu_layers == 999 <==> scoring::offloads(
                scoring::memory_of(candidate),
                hardware,
            )
            &&& r.cautions.len() == (if fits {
                0int
            } else {
                1
            }) + (if r.gpu_layers == 999 {
                0int
            } else {
                1
            })
        }),
{
    let lower = text::lowercase(scoring::description(candidate));
    let a = scoring::assessment_of(candidate, lower, hardware, task, preference, download_log);
    let vram = hardware::vram_of(hardware.vram_gb);
    let reasons = scoring::reasons_for(a, vram, candidate.quantization);
    let cautions = scoring::cautions_for(a, hardware.gpu_name is Some);
    lemma_fit_tells(a.memory, hardware);
    lemma_reasons_differ(a, vram, candidate.quantization);
    lemma_cautions_differ();
    if scoring::fits(a.fit) {
        assert(reasons[1] == scoring::fit_reason());
    } else {
        assert(cautions[0] == scoring::memory_caution());
    }
}

/// The reasons but for the fit are not that one.
proof fn lemma_reasons_differ(a: Assessment, vram: Double, quantization: Option<Seq<char>>)
    ensures
        !scoring::fits(a.fit) ==> !scoring::reasons_for(a, vram, quantization).contains(
            scoring::fit_reason(),
        ),
{
    reveal_strlit("The model fits within the memory currently available on this computer.");
    reveal_strlit("Estimated loaded footprint is about ");
    reveal_strlit("The detected ");
    reveal_strlit(" is an appropriate speed, memory, and quality tradeoff for this hardware.");
    let fit = scoring::fit_reason();
    assert(fit[0] == 'T' && fit[4] == 'm' && fit[fit.len() - 2] == 'r');
    let reasons = scoring::reasons_for(a, vram, quantization);
    if !scoring::fits(a.fit) {
        assert forall|i: int| 0 <= i < reasons.len() implies #[trigger] reasons[i] != fit by {
            if i == 0 {
                assert(reasons[i][0] == 'E');
            } else if a.offload && i == 1 {
                assert(reasons[i][4] == 'd');
            } else {
                assert(reasons[i][reasons[i].len() - 2] == 'e');
            }
        }
    }
}

/// The cautions about the graphics adapter are not the one about memory.
proof fn lemma_cautions_differ()
    ensures
        "Only partial GPU offload is likely; generation may lean heavily on the CPU."@
            != scoring::memory_caution(),
        "No compatible GPU was detected, so generation will run primarily on the CPU."@
            != scoring::memory_caution(),
{
    reveal_strlit(
        "Memory headroom is tight. Close other applications or choose a smaller quantization.",
    );
    reveal_strlit("Only partial GPU offload is likely; generation may lean heavily on the CPU.");
    reveal_strlit("No compatible GPU was detected, so generation will run primarily on the CPU.");
    assert(scoring::memory_caution()[0] == 'M');
    assert("Only partial GPU offload is likely; generation may lean heavily on the CPU."@[0]
        == 'O');
    assert("No compatible GPU was detected, so generation will run primarily on the CPU."@[0]
        == 'N');
}

/// A file name in an address has no space and no number sign, and one without them stays as
/// it is.
pub proof fn lemma_escaped(filename: Seq<char>)
    ensures
        !scoring::escaped(filename).contains(' '),
        !scoring::escaped(filename).contains('#'),
        !filename.contains(' ') && !filename.contains('#') ==> scoring::escaped(filename)
            == filename,
    decreases filename.len(),
{
    reveal_strlit("%20");
    reveal_strlit("%23");
    if filename.len() > 0 {
        let front = filename.drop_last();
        let last = filename.last();
        lemma_escaped(front);
        let piece = scoring::escaped_char(last);
        assert(!piece.contains(' ') && !piece.contains('#'));
        if !filename.contains(' ') && !filename.contains('#') {
            assert forall|c: char| front.contains(c) implies filename.contains(c) by {
                let i = choose|i: int| 0 <= i < front.len() && front[i] == c;
                assert(filename[i] == c);
            }
            assert(filename[filename.len() - 1] == last);
            assert(front.push(last) == filename);
            assert(scoring::escaped(front) + seq![last] == front.push(last));
        }
    }
}

/// A number from 0 to 1 is shown as the nearest number of thousandths, or almost so.
proof fn lemma_shown_close(x: Double) -> (k: nat)
    requires
        is_fraction(x),
        !x.is_negative(),
    ensures
        k <= 1000,
        scoring::thousandths(x) == double::nearest(k, 1000),
        100 * double::absolute(1000 * x.value() - k * double::one_in_units()) <= 51
            * double::one_in_units(),
{
    let one = double::one_in_units();
    let g = pow2(1054);
    let thousand = double::whole(1000);
    lemma_fraction_finite(x);
    order::lemma_whole_exact(1);
    order::lemma_whole_exact(1000);
    let v = x.value();
    assert(0 <= v <= one) by {
        reveal(double::at_most);
    }
    lemma2_to64();
    lemma_pow2_adds(20, 1054);
    lemma_pow2_pos(1054);
    let m = (v / g as int) as nat;
    lemma_fundamental_div_mod(v, g as int);
    assert(0 <= v / g as int <= 0x10_0000) by (nonlinear_arith)
        requires
            v == g * (v / g as int) + v % (g as int),
            0 <= v % (g as int) < g,
            0 <= v <= 0x10_0000 * g,
            g > 0,
    ;
    assert(m * g <= v < (m + 1) * g) by (nonlinear_arith)
        requires
            v == g * m + v % (g as int),
            0 <= v % (g as int) < g,
    ;
    let low = double::nearest(m, pow2(20));
    let high = double::nearest(m + 1, pow2(20));
    order::lemma_nearest_exact(m, 20);
    order::lemma_nearest_exact(m + 1, 20);
    order::lemma_nearest_exact(m * 1000, 20);
    order::lemma_nearest_exact((m + 1) * 1000, 20);
    assert(double::at_most(low, x) && double::at_most(x, high)) by {
        reveal(double::at_most);
    }
    let y = double::product(x, thousand);
    order::lemma_product_monotone(low, x, thousand);
    order::lemma_product_monotone(x, high, thousand);
    order::lemma_product_exact(m, 20, 1000);
    order::lemma_product_exact(m + 1, 20, 1000);
    assert((m * 1000) * g <= y.value() <= ((m + 1) * 1000) * g) by {
        reveal(double::at_most);
    }
    assert((m * 1000) * g == 1000 * (m * g) && ((m + 1) * 1000) * g == 1000 * (m * g) + 1000 * g
        && (m + 1) * g == m * g + g) by (nonlinear_arith);
    order::lemma_product_monotone(x, double::whole(1), thousand);
    order::lemma_product_whole(1, 1000);
    double::lemma_product_is_number(x, thousand);
    let k = order::lemma_rounded_whole(y, 1000);
    order::lemma_quotient_whole(k, 1000);
    k
}

/// Numbers of thousandths are ordered as they are shown.
proof fn lemma_shown_order(a: nat, b: nat)
    requires
        a <= 1000,
        b <= 1000,
        double::at_most(double::nearest(a, 1000), double::nearest(b, 1000)),
    ensures
        a <= b,
{
    if b < a {
        lemma2_to64();
        let m = (b * 4096 + 999) / 1000;
        order::lemma_nearest_less(b, 1000, a, 1000, m, 12);
        reveal(double::at_most);
        reveal(double::less);
    }
}

/// The values of a finite number and of its opposite.
proof fn lemma_opposite_value(x: Double)
    requires
        x.is_finite(),
    ensures
        double::opposite(x).is_finite(),
        double::opposite(x).value() == -x.value(),
{
}

/// Whether a number is almost so many hundredths.
spec fn is_about(x: Double, hundredths: int) -> bool {
    &&& x.is_finite()
    &&& x.value() >= 0
    &&& double::absolute(100 * x.value() - hundredths * double::one_in_units()) <= 1000
        * order::grain()
}

/// What the weights are at the ends of the slider.
proof fn lemma_weights_at_ends()
    ensures
        is_about(scoring::quality_weight(double::whole(0)), 12),
        is_about(scoring::quality_weight(double::whole(1)), 30),
        is_about(scoring::speed_weight(double::whole(0)), 25),
        is_about(scoring::speed_weight(double::whole(1)), 13),
{
    let one = double::one_in_units();
    let g = order::grain();
    let c12 = double::nearest(12, 100);
    let c18 = double::nearest(18, 100);
    let c25 = double::nearest(25, 100);
    let zero = double::whole(0);
    let full = double::whole(1);
    order::lemma_grain();
    order::lemma_nearest_close(12, 100);
    order::lemma_nearest_close(18, 100);
    order::lemma_nearest_close(25, 100);
    order::lemma_nearest_positive(12, 100);
    order::lemma_nearest_positive(18, 100);
    double::lemma_whole_zero();
    order::lemma_whole_exact(1);
    lemma_product_zero_left(zero, c18);
    lemma_product_zero_left(zero, c12);
    double::lemma_zero_units();
    double::lemma_product_is_number(zero, c18);
    double::lemma_product_is_number(zero, c12);
    order::lemma_product_commutes(full, c18);
    order::lemma_product_commutes(full, c12);
    order::lemma_product_one(c18);
    order::lemma_product_one(c12);
    order::lemma_sum_close(c12, double::product(zero, c18));
    order::lemma_sum_close(c12, c18);
    lemma_opposite_value(double::product(zero, c12));
    lemma_opposite_value(c12);
    order::lemma_sum_close(c25, double::opposite(double::product(zero, c12)));
    order::lemma_sum_close(c25, double::opposite(c12));
}

/// A number from 0 to 1, weighted by almost so many hundredths.
proof fn lemma_weighted_close(x: Double, weight: Double, hundredths: int)
    requires
        is_fraction(x),
        is_about(weight, hundredths),
        0 <= hundredths <= 50,
    ensures
        double::product(x, weight).is_finite(),
        0 <= double::product(x, weight).value() <= double::one_in_units(),
        double::absolute(100 * double::product(x, weight).value() - hundredths * x.value())
            <= 1100 * order::grain(),
{
    let one = double::one_in_units();
    let g = order::grain();
    let v = x.value();
    let w = weight.value();
    order::lemma_grain();
    lemma_fraction_finite(x);
    order::lemma_whole_exact(1);
    double::lemma_whole_zero();
    assert(0 <= v <= one) by {
        reveal(double::at_most);
    }
    assert(100 * w <= 50 * one + 1000 * g) by (nonlinear_arith)
        requires
            100 * w - hundredths * one <= 1000 * g,
            hundredths <= 50,
            one > 0,
    ;
    assert(v * w <= one * w && one * w < one * (4 * one)) by (nonlinear_arith)
        requires
            0 <= v <= one,
            0 <= w < 4 * one,
            one > 0,
    ;
    order::lemma_product_close(x, weight);
    let p = double::product(x, weight).value();
    let e = 100 * w - hundredths * one;
    assert(-(1000 * g) <= e <= 1000 * g);
    assert(-(one * (1000 * g)) <= v * e <= one * (1000 * g)) by (nonlinear_arith)
        requires
            0 <= v <= one,
            -(1000 * g) <= e <= 1000 * g,
            g > 0,
    ;
    assert(v * e == 100 * (v * w) - one * (hundredths * v)) by (nonlinear_arith)
        requires
            e == 100 * w - hundredths * one,
    ;
    assert(-(1100 * g) <= 100 * p - hundredths * v <= 1100 * g) by (nonlinear_arith)
        requires
            -(one * (1000 * g)) <= 100 * (v * w) - one * (hundredths * v) <= one * (1000 * g),
            -(one * g) <= v * w - one * p <= one * g,
            one > 0,
    ;
    assert(p <= one) by {
        assert(hundredths * v <= 50 * one) by (nonlinear_arith)
            requires
                0 <= hundredths <= 50,
                0 <= v <= one,
        ;
    }
}

/// The part of the sum that the slider moves: fit, quality and speed.
spec fn leading_terms(fit: Double, quality: Double, speed: Double, preference: Double) -> Double {
    double::sum(
        double::sum(
            double::product(fit, double::nearest(37, 100)),
            double::product(quality, scoring::quality_weight(preference)),
        ),
        double::product(speed, scoring::speed_weight(preference)),
    )
}

/// That part at an end of the slider, in hundredths.
proof fn lemma_leading_terms(
    fit: Double,
    quality: Double,
    speed: Double,
    preference: Double,
    quality_hundredths: int,
    speed_hundredths: int,
)
    requires
        is_fraction(fit),
        is_fraction(quality),
        is_fraction(speed),
        is_about(scoring::quality_weight(preference), quality_hundredths),
        is_about(scoring::speed_weight(preference), speed_hundredths),
        0 <= quality_hundredths <= 50,
        0 <= speed_hundredths <= 50,
    ensures
        leading_terms(fit, quality, speed, preference).is_finite(),
        double::absolute(
            100 * leading_terms(fit, quality, speed, preference).value() - (100 * double::product(
                fit,
                double::nearest(37, 100),
            ).value() + quality_hundredths * quality.value() + speed_hundredths * speed.value()),
        ) <= 2400 * order::grain(),
{
    order::lemma_grain();
    order::lemma_nearest_close(37, 100);
    lemma_weighted_close(fit, double::nearest(37, 100), 37);
    lemma_weighted_close(quality, scoring::quality_weight(preference), quality_hundredths);
    lemma_weighted_close(speed, scoring::speed_weight(preference), speed_hundredths);
    let f = double::product(fit, double::nearest(37, 100));
    let q = double::product(quality, scoring::quality_weight(preference));
    let s = double::product(speed, scoring::speed_weight(preference));
    order::lemma_sum_close(f, q);
    order::lemma_sum_close(double::sum(f, q), s);
}

/// What goes into the score but for the quality is from 0 to 1 for any numbers, and the speed
/// is at least 0.05.
proof fn lemma_other_parts(
    candidate: CandidateView,
    hardware: HardwareProfile,
    download_log: Double,
)
    requires
        hardware::is_measured(hardware),
        catalog::is_numbered(candidate),
        order::is_natural(download_log),
    ensures
        ({
            let memory = scoring::memory_of(candidate);
            let speed = scoring::speed_of(candidate, scoring::offloads(memory, hardware));
            &&& is_fraction(scoring::fit_of(memory, hardware))
            &&& is_fraction(speed)
            &&& double::at_most(double::nearest(5, 100), speed)
            &&& is_fraction(scoring::safety_of(memory, hardware))
            &&& is_fraction(scoring::popularity_of(download_log, candidate.likes))
        }),
{
    let memory = scoring::memory_of(candidate);
    let rate = scoring::memory_rate(scoring::precision_of(candidate.quantization));
    let speed_rate = scoring::speed_rate(scoring::precision_of(candidate.quantization));
    let n = scoring::parameters_or(candidate, 7);
    let one = double::whole(1);
    order::lemma_whole_exact(0);
    order::lemma_whole_exact(1);
    order::lemma_whole_exact(7);
    order::lemma_whole_exact(20);
    order::lemma_nearest_positive(125, 100);
    order::lemma_nearest_positive(75, 100);
    order::lemma_nearest_positive(rate, 100);
    order::lemma_nearest_positive(speed_rate, 100);
    order::lemma_nearest_positive(35, 100);
    order::lemma_nearest_positive(20, 100);
    double::lemma_product_is_number(n, double::nearest(rate, 100));
    order::lemma_sum_is_number(
        double::product(n, double::nearest(rate, 100)),
        double::nearest(125, 100),
    );
    if let Some(size) = candidate.size_gb {
        double::lemma_product_is_number(size, double::nearest(125, 100));
        order::lemma_sum_is_number(
            double::product(size, double::nearest(125, 100)),
            double::nearest(75, 100),
        );
    }
    lemma_fit_bounds(memory, hardware);
    lemma_is_fraction(scoring::fit_of(memory, hardware));
    order::lemma_reflexive(memory);
    lemma_safety_antitone(memory, memory, hardware);
    lemma_popularity_bounds(download_log, candidate.likes);
    lemma_is_fraction(scoring::popularity_of(download_log, candidate.likes));
    let share = double::smaller(double::quotient(n, double::whole(20)), one);
    let penalty = double::product(share, double::nearest(35, 100));
    let start = double::nearest(speed_rate, 100);
    let bonus = if scoring::offloads(memory, hardware) {
        double::nearest(20, 100)
    } else {
        double::whole(0)
    };
    double::lemma_quotient_is_number(n, double::whole(20));
    double::lemma_product_is_number(share, double::nearest(35, 100));
    order::lemma_sum_commutes(start, double::opposite(penalty));
    order::lemma_sum_is_number(double::opposite(penalty), start);
    let rest = double::difference(start, penalty);
    order::lemma_sum_is_number(rest, bonus);
    let whole = double::sum(rest, bonus);
    order::lemma_reflexive(whole);
    order::lemma_nearest_monotone(5, 100, 1, 1);
    order::lemma_nearest_monotone(0, 1, 5, 100);
    order::lemma_confined_monotone(whole, whole, double::nearest(5, 100), one);
    reveal(double::at_most);
}

/// The quality is at most 1 for any number of parameters.
proof fn lemma_quality_at_most_one(family: nat, parameters: Double)
    requires
        0 < family <= 100,
        !parameters.is_nan(),
    ensures
        double::at_most(scoring::quality_from(family, parameters), double::whole(1)),
{
    let one = double::whole(1);
    let base = double::product(double::nearest(family, 100), double::nearest(82, 100));
    let share = double::smaller(double::quotient(parameters, double::whole(14)), one);
    let part = double::product(share, double::nearest(18, 100));
    order::lemma_whole_exact(1);
    order::lemma_whole_exact(14);
    order::lemma_nearest_positive(family, 100);
    order::lemma_nearest_positive(82, 100);
    order::lemma_nearest_positive(18, 100);
    order::lemma_nearest_monotone(family, 100, 1, 1);
    lemma_is_fraction(double::nearest(family, 100));
    lemma_weighted(double::nearest(family, 100), double::nearest(82, 100));
    double::lemma_quotient_is_number(parameters, double::whole(14));
    double::lemma_product_is_number(share, double::nearest(18, 100));
    order::lemma_sum_commutes(base, part);
    order::lemma_sum_is_number(part, base);
    let total = double::sum(base, part);
    order::lemma_reflexive(total);
    order::lemma_smaller_monotone(total, total, one);
}

/// A model whose shown quality is at least a shown speed of 0.05 or more has a quality from
/// 0 to 1.
proof fn lemma_leading_quality(family: nat, parameters: Double, speed: Double)
    requires
        0 < family <= 100,
        !parameters.is_nan(),
        double::at_most(double::nearest(5, 100), speed),
        double::at_most(
            scoring::thousandths(speed),
            scoring::thousandths(scoring::quality_from(family, parameters)),
        ),
    ensures
        is_fraction(scoring::quality_from(family, parameters)),
        !scoring::quality_from(family, parameters).is_negative(),
{
    let quality = scoring::quality_from(family, parameters);
    lemma_quality_at_most_one(family, parameters);
    assert(!quality.is_nan()) by {
        reveal(double::at_most);
    }
    if quality.is_negative() {
        let zero = double::whole(0);
        double::lemma_whole_zero();
        order::lemma_pattern_order(quality, zero);
        lemma_thousandths_monotone(quality, zero);
        lemma_thousandths_kept(0);
        order::lemma_nearest_same(0, 1000, 0, 1);
        lemma_thousandths_monotone(double::nearest(5, 100), speed);
        lemma_thousandths_kept(50);
        order::lemma_nearest_same(50, 1000, 5, 100);
        assert(double::at_most(double::nearest(50, 1000), double::nearest(0, 1000))) by {
            reveal(double::at_most);
        }
        lemma_shown_order(50, 0);
    }
    lemma_is_fraction(quality);
}

/// Moving the slider from speed to quality never lowers the score of a model whose shown
/// quality is at least its shown speed.
pub proof fn lemma_slider(
    candidate: CandidateView,
    hardware: HardwareProfile,
    task: Seq<char>,
    download_log: Double,
)
    requires
        hardware::is_measured(hardware),
        catalog::is_numbered(candidate),
        order::is_natural(download_log),
        ({
            let r = scoring::scored(candidate, hardware, task, double::whole(0), download_log);
            double::at_most(r.speed_score, r.quality_score)
        }),
    ensures
        double::at_most(
            scoring::scored(candidate, hardware, task, double::whole(0), download_log).score,
            scoring::scored(candidate, hardware, task, double::whole(1), download_log).score,
        ),
{
    let zero = double::whole(0);
    let full = double::whole(1);
    let one = double::one_in_units();
    let lower = text::lowercase(scoring::description(candidate));
    let a = scoring::assessment_of(candidate, lower, hardware, task, zero, download_log);
    let b = scoring::assessment_of(candidate, lower, hardware, task, full, download_log);
    let popularity = scoring::popularity_of(download_log, candidate.likes);
    double::lemma_whole_zero();
    order::lemma_whole_exact(1);
    order::lemma_nearest_monotone(0, 1, 1, 1);
    assert(double::confined(zero, zero, full) == zero && double::confined(full, zero, full)
        == full) by {
        reveal(double::less);
        reveal(double::at_most);
    }
    lemma_other_parts(candidate, hardware, download_log);
    order::lemma_whole_exact(3);
    lemma_leading_quality(
        scoring::family_rate(lower),
        scoring::parameters_or(candidate, 3),
        a.speed,
    );
    order::lemma_nearest_positive(5, 100);
    lemma_fraction_finite(a.speed);
    order::lemma_pattern_order(double::nearest(5, 100), a.speed);
    let kq = lemma_shown_close(a.quality);
    let ks = lemma_shown_close(a.speed);
    lemma_shown_order(ks, kq);
    lemma_weights_at_ends();
    lemma_leading_terms(a.fit, a.quality, a.speed, zero, 12, 25);
    lemma_leading_terms(a.fit, a.quality, a.speed, full, 30, 13);
    let x = leading_terms(a.fit, a.quality, a.speed, zero);
    let y = leading_terms(a.fit, a.quality, a.speed, full);
    order::lemma_grain();
    order::lemma_nearest_close(5, 100);
    assert(double::nearest(5, 100).value() <= a.speed.value()) by {
        reveal(double::at_most);
    }
    assert(ks * one <= kq * one) by (nonlinear_arith)
        requires
            ks <= kq,
            one > 0,
    ;
    assert(x.value() <= y.value());
    assert(double::at_most(x, y)) by {
        reveal(double::at_most);
    }
    order::lemma_nearest_positive(15, 100);
    order::lemma_nearest_positive(8, 100);
    order::lemma_nearest_positive(6, 100);
    lemma_weighted(a.safety, double::nearest(15, 100));
    lemma_weighted(popularity, double::nearest(8, 100));
    let s = double::product(a.safety, double::nearest(15, 100));
    let p = double::product(popularity, double::nearest(8, 100));
    let t = if scoring::suits(lower, task) {
        double::nearest(6, 100)
    } else {
        zero
    };
    order::lemma_sum_monotone(x, y, s);
    order::lemma_sum_monotone(double::sum(x, s), double::sum(y, s), p);
    let x2 = double::sum(double::sum(x, s), p);
    let y2 = double::sum(double::sum(y, s), p);
    order::lemma_sum_monotone(x2, y2, t);
    order::lemma_confined_monotone(double::sum(x2, t), double::sum(y2, t), zero, full);
    lemma_thousandths_monotone(a.score, b.score);
}

/// The slider changes the score and nothing else that is said of a model.
pub proof fn lemma_slider_changes_score_only(
    candidate: CandidateView,
    hardware: HardwareProfile,
    task: Seq<char>,
    preference: Double,
    other: Double,
    download_log: Double,
)
    ensures
        scoring::scored(candidate, hardware, task, preference, download_log) == (
        RecommendationView {
            score: scoring::scored(
                candidate,
                hardware,
                task,
                preference,
                download_log,
            ).score,
            ..scoring::scored(candidate, hardware, task, other, download_log)
        }),
{
}

/// A preference below 0 counts as 0, and one above 1 as 1.
pub proof fn lemma_slider_ends(
    candidate: CandidateView,
    hardware: HardwareProfile,
    task: Seq<char>,
    preference: Double,
    download_log: Double,
)
    ensures
        double::at_most(preference, double::whole(0)) ==> scoring::scored(
            candidate,
            hardware,
            task,
            preference,
            download_log,
        ) == scoring::scored(candidate, hardware, task, double::whole(0), download_log),
        double::at_most(double::whole(1), preference) ==> scoring::scored(
            candidate,
            hardware,
            task,
            preference,
            download_log,
        ) == scoring::scored(candidate, hardware, task, double::whole(1), download_log),
{
    let zero = double::whole(0);
    let full = double::whole(1);
    double::lemma_whole_zero();
    order::lemma_whole_exact(1);
    order::lemma_nearest_monotone(0, 1, 1, 1);
    assert(double::confined(zero, zero, full) == zero && double::confined(full, zero, full)
        == full) by {
        reveal(double::less);
        reveal(double::at_most);
    }
    let held = double::confined(preference, zero, full);
    lemma_pow2_pos(1074);
    if double::at_most(preference, zero) {
        assert(held == zero || (held == preference && preference.value() == 0
            && !preference.is_nan())) by {
            reveal(double::less);
            reveal(double::at_most);
        }
        if held != zero {
            order::lemma_zero_value(preference);
            lemma_weights_without_preference(preference);
            lemma_weights_without_preference(zero);
        }
    }
    if double::at_most(full, preference) {
        assert(held == full || (held == preference && !preference.is_nan() && double::at_most(
            preference,
            full,
        ))) by {
            reveal(double::less);
            reveal(double::at_most);
        }
        if held != full {
            order::lemma_pattern_order(full, preference);
            order::lemma_pattern_order(preference, full);
        }
    }
}

/// The weights without a preference, whatever the sign of the zero.
proof fn lemma_weights_without_preference(preference: Double)
    requires
        preference.magnitude() == 0,
    ensures
        scoring::quality_weight(preference) == double::nearest(12, 100),
        scoring::speed_weight(preference) == double::nearest(25, 100),
{
    let c12 = double::nearest(12, 100);
    let c18 = double::nearest(18, 100);
    let c25 = double::nearest(25, 100);
    order::lemma_nearest_positive(12, 100);
    order::lemma_nearest_positive(18, 100);
    order::lemma_nearest_positive(25, 100);
    double::lemma_product_is_number(preference, c18);
    double::lemma_product_is_number(preference, c12);
    lemma_product_zero_left(preference, c18);
    lemma_product_zero_left(preference, c12);
    order::lemma_sum_with_zero(c12, double::product(preference, c18));
    order::lemma_sum_with_zero(c25, double::opposite(double::product(preference, c12)));
}

/// The sum without the bonus for the task.
spec fn plain_sum(
    fit: Double,
    quality: Double,
    speed: Double,
    safety: Double,
    popularity: Double,
    preference: Double,
) -> Double {
    double::sum(
        double::sum(
            leading_terms(fit, quality, speed, preference),
            double::product(safety, double::nearest(15, 100)),
        ),
        double::product(popularity, double::nearest(8, 100)),
    )
}

/// A weighted partial score is at most half and not negative.
proof fn lemma_term_is_small(x: Double, weight: Double)
    requires
        is_fraction(x),
        order::is_positive(weight),
        2 * weight.value() <= double::one_in_units() + 4 * order::grain(),
    ensures
        double::product(x, weight).is_finite(),
        0 <= double::product(x, weight).value(),
        2 * double::product(x, weight).value() <= double::one_in_units() + 4 * order::grain(),
{
    lemma_weighted(x, weight);
    double::lemma_whole_zero();
    reveal(double::at_most);
}

/// The weights are at most a half.
proof fn lemma_weights_are_small(preference: Double)
    requires
        is_fraction(preference),
    ensures
        order::is_positive(scoring::quality_weight(preference)),
        order::is_positive(scoring::speed_weight(preference)),
        2 * scoring::quality_weight(preference).value() <= double::one_in_units(),
        2 * scoring::speed_weight(preference).value() <= double::one_in_units(),
{
    let c12 = double::nearest(12, 100);
    let c18 = double::nearest(18, 100);
    let c25 = double::nearest(25, 100);
    lemma_fraction_finite(preference);
    order::lemma_reflexive(preference);
    lemma_weights(preference, preference);
    order::lemma_grain();
    order::lemma_nearest_close(12, 100);
    order::lemma_nearest_close(18, 100);
    order::lemma_nearest_close(25, 100);
    order::lemma_nearest_positive(12, 100);
    order::lemma_nearest_positive(18, 100);
    lemma_weighted(preference, c18);
    lemma_weighted(preference, c12);
    let a = double::product(preference, c18);
    let b = double::product(preference, c12);
    double::lemma_whole_zero();
    assert(0 <= a.value() <= c18.value() && 0 <= b.value() <= c12.value()) by {
        reveal(double::at_most);
    }
    order::lemma_sum_close(c12, a);
    lemma_opposite_value(b);
    order::lemma_sum_close(c25, double::opposite(b));
}

/// The sum without the bonus is a number that is not negative and below 3.
proof fn lemma_plain_sum(
    fit: Double,
    quality: Double,
    speed: Double,
    safety: Double,
    popularity: Double,
    preference: Double,
)
    requires
        are_fractions(fit, quality, speed, safety, popularity),
        !fit.is_negative(),
        is_fraction(preference),
    ensures
        ({
            let total = plain_sum(fit, quality, speed, safety, popularity, preference);
            &&& total.is_finite()
            &&& !total.is_negative()
            &&& 0 <= total.value() < 3 * double::one_in_units()
        }),
{
    let w1 = double::nearest(37, 100);
    let w2 = scoring::quality_weight(preference);
    let w3 = scoring::speed_weight(preference);
    let w4 = double::nearest(15, 100);
    let w5 = double::nearest(8, 100);
    order::lemma_grain();
    order::lemma_nearest_close(37, 100);
    order::lemma_nearest_close(15, 100);
    order::lemma_nearest_close(8, 100);
    order::lemma_nearest_positive(37, 100);
    order::lemma_nearest_positive(15, 100);
    order::lemma_nearest_positive(8, 100);
    lemma_weights_are_small(preference);
    lemma_term_is_small(fit, w1);
    lemma_term_is_small(quality, w2);
    lemma_term_is_small(speed, w3);
    lemma_term_is_small(safety, w4);
    lemma_term_is_small(popularity, w5);
    let t1 = double::product(fit, w1);
    let t2 = double::product(quality, w2);
    let t3 = double::product(speed, w3);
    let t4 = double::product(safety, w4);
    let t5 = double::product(popularity, w5);
    lemma_fraction_finite(fit);
    double::lemma_product_is_number(fit, w1);
    order::lemma_sum_close(t1, t2);
    order::lemma_sum_not_negative(t1, t2);
    let s2 = double::sum(t1, t2);
    order::lemma_sum_close(s2, t3);
    order::lemma_sum_not_negative(s2, t3);
    let s3 = double::sum(s2, t3);
    order::lemma_sum_close(s3, t4);
    order::lemma_sum_not_negative(s3, t4);
    let s4 = double::sum(s3, t4);
    order::lemma_sum_close(s4, t5);
    order::lemma_sum_not_negative(s4, t5);
}

/// A score held from 0 to 1, by its value, and how it is shown.
proof fn lemma_held_and_shown(x: Double) -> (k: nat)
    requires
        x.is_finite(),
        !x.is_negative(),
    ensures
        ({
            let one = double::one_in_units();
            let held = if x.value() < one {
                x.value()
            } else {
                one as int
            };
            let shown = scoring::thousandths(
                double::confined(x, double::whole(0), double::whole(1)),
            );
            &&& k <= 1000
            &&& shown == double::nearest(k, 1000)
            &&& 100 * double::absolute(1000 * held - k * one) <= 51 * one
        }),
{
    let zero = double::whole(0);
    let full = double::whole(1);
    double::lemma_whole_zero();
    order::lemma_whole_exact(1);
    let c = double::confined(x, zero, full);
    assert(x.value() >= 0);
    assert(is_fraction(c) && !c.is_negative() && c.value() == if x.value()
        < double::one_in_units() {
        x.value()
    } else {
        double::one_in_units() as int
    }) by {
        reveal(double::less);
        reveal(double::at_most);
    }
    lemma_shown_close(c)
}

/// A score in thousandths, raised by the bonus for the task: 60 more, up to 1000.
pub open spec fn with_bonus(thousandths: int) -> int {
    if thousandths + 60 < 1000 {
        thousandths + 60
    } else {
        1000
    }
}

/// What the bonus for the task makes of a sum, in the thousandths that are shown.
proof fn lemma_bonus_of_sum(total: Double) -> (k: (nat, nat))
    requires
        total.is_finite(),
        !total.is_negative(),
        total.value() < 3 * double::one_in_units(),
    ensures
        ({
            let zero = double::whole(0);
            let full = double::whole(1);
            let without = scoring::thousandths(
                double::confined(double::sum(total, zero), zero, full),
            );
            let suited = scoring::thousandths(
                double::confined(double::sum(total, double::nearest(6, 100)), zero, full),
            );
            &&& without == double::nearest(k.0, 1000)
            &&& suited == double::nearest(k.1, 1000)
            &&& k.0 <= 1000
            &&& k.1 <= 1000
            &&& with_bonus(k.0 as int) - 1 <= k.1 <= with_bonus(k.0 as int) + 1
        }),
{
    let one = double::one_in_units();
    let zero = double::whole(0);
    let c06 = double::nearest(6, 100);
    order::lemma_grain();
    double::lemma_whole_zero();
    order::lemma_nearest_close(6, 100);
    order::lemma_sum_close(total, zero);
    order::lemma_sum_close(total, c06);
    order::lemma_sum_not_negative(total, zero);
    order::lemma_sum_not_negative(total, c06);
    let x = double::sum(total, zero);
    let y = double::sum(total, c06);
    let a = lemma_held_and_shown(x);
    let b = lemma_held_and_shown(y);
    let p = a * one;
    let q = b * one;
    if x.value() < one && y.value() < one {
        assert(58 * one < q - p < 62 * one);
        assert(58 < b - a < 62) by (nonlinear_arith)
            requires
                p == a * one,
                q == b * one,
                58 * one < q - p < 62 * one,
                one > 0,
        ;
    } else {
        assert(q > 999 * one);
        assert(b >= 1000) by (nonlinear_arith)
            requires
                q == b * one,
                q > 999 * one,
                one > 0,
        ;
        assert(p > 939 * one);
        assert(a >= 940) by (nonlinear_arith)
            requires
                p == a * one,
                p > 939 * one,
                one > 0,
        ;
    }
    (a, b)
}

/// Suiting the task raises the score of a model by 0.06, up to 1, and changes nothing else
/// that is said of it. In the thousandths that are shown, `k.0` without and `k.1` with the
/// bonus, it is so to within one of them; by the values of the shown scores to within two.
/// The quality must not be negative, as it is for a number of parameters far below zero only.
pub proof fn lemma_task_bonus(
    candidate: CandidateView,
    hardware: HardwareProfile,
    suited: Seq<char>,
    unsuited: Seq<char>,
    preference: Double,
    download_log: Double,
) -> (k: (nat, nat))
    requires
        hardware::is_measured(hardware),
        catalog::is_numbered(candidate),
        double::at_most(double::whole(0), scoring::quality_of(candidate)),
        !preference.is_nan(),
        order::is_natural(download_log),
        scoring::suits(text::lowercase(scoring::description(candidate)), suited),
        !scoring::suits(text::lowercase(scoring::description(candidate)), unsuited),
    ensures
        ({
            let r = scoring::scored(candidate, hardware, suited, preference, download_log);
            let s = scoring::scored(candidate, hardware, unsuited, preference, download_log);
            let one = double::one_in_units() as int;
            let raised = 1000 * s.score.value() + 60 * one;
            &&& r == (RecommendationView { score: r.score, ..s })
            &&& double::at_most(s.score, r.score)
            &&& s.score == double::nearest(k.0, 1000)
            &&& r.score == double::nearest(k.1, 1000)
            &&& k.0 <= 1000
            &&& k.1 <= 1000
            &&& with_bonus(k.0 as int) - 1 <= k.1 <= with_bonus(k.0 as int) + 1
            &&& double::absolute(
                1000 * r.score.value() - if raised < 1000 * one {
                    raised
                } else {
                    1000 * one
                },
            ) <= 2 * one
        }),
{
    let zero = double::whole(0);
    let full = double::whole(1);
    let one = double::one_in_units();
    let lower = text::lowercase(scoring::description(candidate));
    let a = scoring::assessment_of(candidate, lower, hardware, suited, preference, download_log);
    let b = scoring::assessment_of(
        candidate,
        lower,
        hardware,
        unsuited,
        preference,
        download_log,
    );
    let popularity = scoring::popularity_of(download_log, candidate.likes);
    let held = double::confined(preference, zero, full);
    lemma_other_parts(candidate, hardware, download_log);
    order::lemma_whole_exact(3);
    lemma_quality_at_most_one(
        scoring::family_rate(lower),
        scoring::parameters_or(candidate, 3),
    );
    order::lemma_nearest_monotone(0, 1, 1, 1);
    order::lemma_reflexive(preference);
    order::lemma_confined_monotone(preference, preference, zero, full);
    lemma_fit_bounds(a.memory, hardware);
    lemma_plain_sum(a.fit, a.quality, a.speed, a.safety, popularity, held);
    let total = plain_sum(a.fit, a.quality, a.speed, a.safety, popularity, held);
    let k = lemma_bonus_of_sum(total);
    assert(a.score == double::confined(double::sum(total, double::nearest(6, 100)), zero, full));
    assert(b.score == double::confined(double::sum(total, zero), zero, full));
    order::lemma_nearest_monotone(0, 1, 6, 100);
    order::lemma_nearest_positive(6, 100);
    order::lemma_whole_exact(0);
    order::lemma_sum_monotone(zero, double::nearest(6, 100), total);
    order::lemma_sum_commutes(zero, total);
    order::lemma_sum_commutes(double::nearest(6, 100), total);
    order::lemma_confined_monotone(
        double::sum(total, zero),
        double::sum(total, double::nearest(6, 100)),
        zero,
        full,
    );
    lemma_thousandths_monotone(b.score, a.score);
    order::lemma_nearest_close(k.0, 1000);
    order::lemma_nearest_close(k.1, 1000);
    order::lemma_grain();
    let p = k.0 * one;
    let q = k.1 * one;
    let w = with_bonus(k.0 as int) * one;
    assert(w - one <= q <= w + one) by (nonlinear_arith)
        requires
            w == with_bonus(k.0 as int) * one,
            q == k.1 * one,
            with_bonus(k.0 as int) - 1 <= k.1 <= with_bonus(k.0 as int) + 1,
            one > 0,
    ;
    assert(k.0 + 60 < 1000 ==> w == p + 60 * one && w <= 999 * one) by (nonlinear_arith)
        requires
            p == k.0 * one,
            k.0 + 60 < 1000 ==> w == (k.0 + 60) * one,
            one > 0,
    ;
    assert(k.0 + 60 >= 1000 ==> w == 1000 * one && p + 60 * one >= 1000 * one)
        by (nonlinear_arith)
        requires
            p == k.0 * one,
            k.0 + 60 >= 1000 ==> w == 1000 * one,
            one > 0,
    ;
    k
}

/// The words of the query and the limit change nothing that is said of a model.
pub proof fn lemma_query_and_limit_do_not_count(
    candidate: CandidateView,
    hardware: HardwareProfile,
    a: RecommendationRequest,
    b: RecommendationRequest,
    download_log: Double,
)
    requires
        a.task@ == b.task@,
        a.speed_quality_preference == b.speed_quality_preference,
    ensures
        scoring::answer_to(candidate, hardware, a, download_log) == scoring::answer_to(
            candidate,
            hardware,
            b,
            download_log,
        ),
{
}

} // verus!
