//! What a recommendation says, by what is known of the model and the machine.

use vstd::prelude::*;
use crate::accuracy;
use crate::catalog::CandidateView;
use crate::decimal;
use crate::double;
use crate::double::Double;
use crate::hardware;
use crate::hardware::HardwareProfile;
use crate::order;
use crate::rounding;
use crate::scoring;
use crate::scoring::Assessment;
use crate::server_laws;
use crate::text;

verus! {

/// The tasks that ask for words in the description of a model, and the words. Every other
/// task is suited by every model.
pub proof fn lemma_suited_by_words(lower: Seq<char>, task: Seq<char>)
    ensures
        task == "coding"@ ==> (scoring::suits(lower, task) <==> text::occurs("coder"@, lower)
            || text::occurs("code"@, lower)),
        task == "writing"@ ==> (scoring::suits(lower, task) <==> text::occurs("llama"@, lower)
            || text::occurs("mistral"@, lower) || text::occurs("story"@, lower)),
        task == "research"@ ==> (scoring::suits(lower, task) <==> text::occurs("deepseek"@, lower)
            || text::occurs("qwen"@, lower) || text::occurs("reason"@, lower)),
        task == "small-business"@ ==> (scoring::suits(lower, task) <==> text::occurs(
            "instruct"@,
            lower,
        ) || text::occurs("chat"@, lower)),
        task != "coding"@ && task != "writing"@ && task != "research"@ && task
            != "small-business"@ ==> scoring::suits(lower, task),
{
    reveal_strlit("coding");
    reveal_strlit("writing");
    reveal_strlit("research");
    reveal_strlit("small-business");
    assert("coding"@.len() == 6 && "writing"@.len() == 7 && "research"@.len() == 8
        && "small-business"@.len() == 14);
}

/// A preference below 0 counts as 0 and one above 1 as 1.
pub open spec fn counted(preference: int) -> int {
    if preference < 0 {
        0
    } else if preference > accuracy::one() {
        accuracy::one()
    } else {
        preference
    }
}

/// Each score goes by what it is about: the memory that the model takes, the description and
/// the parameters of the model, the machine, the preference and the task.
pub proof fn lemma_assessment_parts(
    candidate: CandidateView,
    lower: Seq<char>,
    hardware: HardwareProfile,
    task: Seq<char>,
    preference: Double,
    download_log: Double,
) -> (held: Double)
    ensures
        ({
            let a = scoring::assessment_of(
                candidate,
                lower,
                hardware,
                task,
                preference,
                download_log,
            );
            &&& a.memory == scoring::memory_of(candidate)
            &&& a.fit == scoring::fit_of(scoring::memory_of(candidate), hardware)
            &&& a.offload == scoring::offloads(scoring::memory_of(candidate), hardware)
            &&& a.safety == scoring::safety_of(scoring::memory_of(candidate), hardware)
            &&& a.speed == scoring::speed_of(
                candidate,
                scoring::offloads(scoring::memory_of(candidate), hardware),
            )
            &&& candidate.parameter_billions is Some ==> a.quality == scoring::quality_from(
                scoring::family_rate(lower),
                candidate.parameter_billions->0,
            )
            &&& candidate.parameter_billions is None ==> a.quality == scoring::quality_from(
                scoring::family_rate(lower),
                double::whole(3),
            )
            &&& a.score == scoring::overall(
                a.fit,
                a.quality,
                a.speed,
                a.safety,
                scoring::popularity_of(download_log, candidate.likes),
                held,
                scoring::suits(lower, task),
            )
        }),
        preference.is_finite() ==> held.is_finite() && held.value() == counted(preference.value()),
{
    order::lemma_whole_exact(0);
    order::lemma_whole_exact(1);
    reveal(double::less);
    double::confined(preference, double::whole(0), double::whole(1))
}

/// A recommendation is about the candidate itself, gives its scores in thousandths, and says
/// where to download it.
pub proof fn lemma_recommendation_is_about(
    candidate: CandidateView,
    hardware: HardwareProfile,
    a: Assessment,
)
    ensures
        ({
            let r = scoring::recommendation_of(candidate, hardware, a);
            &&& r.repo_id == candidate.repo_id
            &&& r.filename == candidate.filename
            &&& r.quantization == candidate.quantization
            &&& r.parameter_billions == candidate.parameter_billions
            &&& r.size_gb == candidate.size_gb
            &&& r.score == scoring::thousandths(a.score)
            &&& r.fit_score == scoring::thousandths(a.fit)
            &&& r.quality_score == scoring::thousandths(a.quality)
            &&& r.speed_score == scoring::thousandths(a.speed)
            &&& r.safety_margin_score == scoring::thousandths(a.safety)
            &&& r.estimated_memory_gb == scoring::thousandths(a.memory)
            &&& r.download_url == "https://huggingface.co/"@ + candidate.repo_id
                + "/resolve/main/"@ + scoring::escaped(candidate.filename)
        }),
{
}

/// The settings that a recommendation gives: all layers on the graphics adapter where most of
/// the model fits there, 20 where the adapter has 4 gigabytes at least, and none otherwise;
/// and a context by the memory of the machine.
pub proof fn lemma_recommended_settings(
    candidate: CandidateView,
    hardware: HardwareProfile,
    a: Assessment,
)
    requires
        !hardware.total_ram_gb.is_nan(),
        hardware.vram_gb matches Some(v) ==> !v.is_nan(),
    ensures
        ({
            let r = scoring::recommendation_of(candidate, hardware, a);
            let ram = hardware.total_ram_gb.value();
            let one = accuracy::one();
            &&& a.offload ==> r.gpu_layers == 999
            &&& !a.offload && hardware.vram_gb is None ==> r.gpu_layers == 0
            &&& !a.offload && hardware.vram_gb is Some && hardware.vram_gb->0.value() >= 4 * one
                ==> r.gpu_layers == 20
            &&& !a.offload && hardware.vram_gb is Some && hardware.vram_gb->0.value() < 4 * one
                ==> r.gpu_layers == 0
            &&& ram >= 64 * one ==> r.context_size == 16384
            &&& 32 * one <= ram < 64 * one ==> r.context_size == 8192
            &&& ram < 32 * one ==> r.context_size == 4096
        }),
{
    accuracy::lemma_one();
    order::lemma_whole_exact(4);
    order::lemma_whole_exact(0);
    server_laws::lemma_context_by_memory(hardware.total_ram_gb);
    reveal(double::at_most);
}

/// What is decided on a model: it is advised against where its fit is below 4 tenths; else it
/// counts whether it is rather fast than good, and whether its quality is above 82 hundredths.
pub proof fn lemma_decision(a: Assessment)
    requires
        a.fit.is_finite(),
        a.quality.is_finite(),
        a.speed.is_finite(),
    ensures
        ({
            let d = scoring::decision_on(a);
            let one = accuracy::one();
            let g = order::grain();
            let fit = a.fit.value();
            let quality = a.quality.value();
            let speed = a.speed.value();
            &&& 10 * fit < 4 * one - 10 * g ==> d == "Not recommended for this computer."@
            &&& 10 * fit > 4 * one + 10 * g && quality < speed ==> d
                == "Best for fast, low-friction local chat."@
            &&& 10 * fit > 4 * one + 10 * g && quality >= speed && 100 * quality > 82 * one + 100
                * g ==> d == "Best quality option that still appears to fit."@
            &&& 10 * fit > 4 * one + 10 * g && quality >= speed && 100 * quality < 82 * one - 100
                * g ==> d == "Balanced recommendation for this computer."@
            &&& 10 * fit > 4 * one + 10 * g && quality >= speed && a.quality == double::nearest(
                82,
                100,
            ) ==> d == "Balanced recommendation for this computer."@
        }),
{
    order::lemma_nearest_close(4, 10);
    order::lemma_nearest_close(82, 100);
    reveal(double::less);
}

/// The reasons, in order: the memory that the model takes; that it fits, where the fit is 7
/// tenths at least; the graphics memory, where the model goes there; and the quantization,
/// where it is known. Nothing else is given as a reason.
pub proof fn lemma_reasons(
    candidate: CandidateView,
    hardware: HardwareProfile,
    a: Assessment,
)
    requires
        a.fit.is_finite(),
        double::absolute(10 * a.fit.value() - 7 * accuracy::one()) > 10 * order::grain(),
    ensures
        ({
            let r = scoring::recommendation_of(candidate, hardware, a).reasons;
            let none = Seq::<Seq<char>>::empty();
            r == seq![
                "Estimated loaded footprint is about "@ + decimal::one_decimal(a.memory)
                    + " GB including runtime overhead."@,
            ] + (if 10 * a.fit.value() > 7 * accuracy::one() {
                seq!["The model fits within the memory currently available on this computer."@]
            } else {
                none
            }) + (if a.offload {
                seq![
                    "The detected "@ + decimal::one_decimal(
                        if hardware.vram_gb is Some {
                            hardware.vram_gb->0
                        } else {
                            double::whole(0)
                        },
                    ) + " GB of VRAM should support substantial GPU acceleration."@,
                ]
            } else {
                none
            }) + (if candidate.quantization is Some {
                seq![
                    candidate.quantization->0
                        + " is an appropriate speed, memory, and quality tradeoff for this hardware."@,
                ]
            } else {
                none
            })
        }),
{
    order::lemma_nearest_close(7, 10);
    reveal(double::at_most);
}

/// The cautions, in order: tight memory, where the fit is below 7 tenths; and that the
/// processor has to do it, where the model does not go onto the graphics adapter, in other
/// words where there is no adapter at all.
pub proof fn lemma_cautions(
    candidate: CandidateView,
    hardware: HardwareProfile,
    a: Assessment,
)
    requires
        a.fit.is_finite(),
        double::absolute(10 * a.fit.value() - 7 * accuracy::one()) > 10 * order::grain(),
    ensures
        ({
            let c = scoring::recommendation_of(candidate, hardware, a).cautions;
            let none = Seq::<Seq<char>>::empty();
            c == (if 10 * a.fit.value() > 7 * accuracy::one() {
                none
            } else {
                seq![
                    "Memory headroom is tight. Close other applications or choose a smaller quantization."@,
                ]
            }) + (if a.offload {
                none
            } else if hardware.gpu_name is Some {
                seq![
                    "Only partial GPU offload is likely; generation may lean heavily on the CPU."@,
                ]
            } else {
                seq![
                    "No compatible GPU was detected, so generation will run primarily on the CPU."@,
                ]
            })
        }),
{
    order::lemma_nearest_close(7, 10);
    reveal(double::at_most);
}

/// Names that are put together are escaped one after the other; a space becomes `%20`, a
/// number sign `%23`, and every other character stays.
pub proof fn lemma_escaped_adds(a: Seq<char>, b: Seq<char>, c: char)
    ensures
        scoring::escaped(a + b) == scoring::escaped(a) + scoring::escaped(b),
        c != ' ' && c != '#' ==> scoring::escaped(seq![c]) == seq![c],
        scoring::escaped(seq![' ']) == seq!['%', '2', '0'],
        scoring::escaped(seq!['#']) == seq!['%', '2', '3'],
        scoring::escaped(Seq::empty()) == Seq::<char>::empty(),
    decreases b.len(),
{
    reveal_strlit("%20");
    reveal_strlit("%23");
    reveal_with_fuel(scoring::escaped, 2);
    assert(seq![c].drop_last() =~= Seq::empty());
    assert(seq![' '].drop_last() =~= Seq::empty());
    assert(seq!['#'].drop_last() =~= Seq::empty());
    assert(scoring::escaped(seq![c]) =~= scoring::escaped_char(c));
    assert(scoring::escaped(seq![' ']) =~= scoring::escaped_char(' '));
    assert(scoring::escaped(seq!['#']) =~= scoring::escaped_char('#'));
    let all = a + b;
    if b.len() == 0 {
        assert(all =~= a);
        assert(scoring::escaped(a) + scoring::escaped(b) =~= scoring::escaped(a));
    } else {
        lemma_escaped_adds(a, b.drop_last(), c);
        assert(all.drop_last() =~= a + b.drop_last());
        assert(scoring::escaped(all) =~= scoring::escaped(a) + scoring::escaped(b));
    }
}

/// A number is shown as the nearest number of thousandths, or almost so.
pub proof fn lemma_shown_thousandths(x: Double) -> (k: nat)
    requires
        x.is_finite(),
        !x.is_negative(),
        x.value() <= 1_000_000_000 * accuracy::one(),
    ensures
        scoring::thousandths(x) == double::nearest(k, 1000),
        1000 * double::absolute(1000 * x.value() - k * accuracy::one()) <= 501 * accuracy::one(),
{
    let one = accuracy::one();
    let fine = accuracy::fineness();
    let thousand = double::whole(1000);
    let y = double::product(x, thousand);
    accuracy::lemma_one();
    order::lemma_whole_exact(1000);
    order::lemma_whole_exact(2_000_000_000_000);
    let v = x.value();
    let u = thousand.value();
    assert(v * u <= one * (accuracy::ample() * one)) by (nonlinear_arith)
        requires
            0 <= v <= 1_000_000_000 * one,
            u == 1000 * one,
            accuracy::ample() >= 1_000_000_000_000,
            one > 0,
    ;
    accuracy::lemma_product_finite(x, thousand);
    accuracy::lemma_product_near(x, thousand);
    let w = y.value();
    let d = double::absolute(v * u - one * w);
    assert(1000 * (1000 * v - w) <= one && 1000 * (w - 1000 * v) <= one) by (nonlinear_arith)
        requires
            2 * (fine * d) <= v * u + fine * one,
            v * u - one * w <= d,
            one * w - v * u <= d,
            0 <= v <= 1_000_000_000 * one,
            u == 1000 * one,
            one > 1_000_000_000_000 * fine,
            fine == 0x10_0000_0000_0000,
    {
        assert(v * u == one * (1000 * v)) by (nonlinear_arith)
            requires
                u == 1000 * one,
        ;
        assert(2 * (fine * (one * (1000 * v - w))) <= one * (1000 * v) + fine * one)
            by (nonlinear_arith)
            requires
                2 * (fine * d) <= v * u + fine * one,
                v * u - one * w <= d,
                v * u == one * (1000 * v),
                fine > 0,
        ;
        assert(2 * (fine * (one * (w - 1000 * v))) <= one * (1000 * v) + fine * one)
            by (nonlinear_arith)
            requires
                2 * (fine * d) <= v * u + fine * one,
                one * w - v * u <= d,
                v * u == one * (1000 * v),
                fine > 0,
        ;
        assert(2 * (fine * (1000 * v - w)) <= 1000 * v + fine) by (nonlinear_arith)
            requires
                2 * (fine * (one * (1000 * v - w))) <= one * (1000 * v) + fine * one,
                one > 0,
        ;
        assert(2 * (fine * (w - 1000 * v)) <= 1000 * v + fine) by (nonlinear_arith)
            requires
                2 * (fine * (one * (w - 1000 * v))) <= one * (1000 * v) + fine * one,
                one > 0,
        ;
    }
    double::lemma_product_is_number(x, thousand);
    assert(double::at_most(y, double::whole(2_000_000_000_000))) by {
        reveal(double::at_most);
    }
    let k = order::lemma_rounded_whole(y, 2_000_000_000_000);
    order::lemma_quotient_whole(k, 1000);
    k
}

/// A number with one digit behind the point: read as tenths it is the number, to half a
/// tenth.
pub proof fn lemma_one_decimal_reads_back(x: Double) -> (tenths: nat)
    requires
        x.is_finite(),
        !x.is_negative(),
    ensures
        ({
            let t = decimal::one_decimal(x);
            &&& t.len() >= 3
            &&& t[t.len() - 2] == '.'
            &&& decimal::are_digits(t.take(t.len() - 2))
            &&& decimal::is_digit(t.last())
            &&& decimal::digits_value(t.take(t.len() - 2).push(t.last())) == tenths
        }),
        2 * double::absolute(10 * x.value() - tenths * accuracy::one()) <= accuracy::one(),
{
    let one = accuracy::one();
    accuracy::lemma_one();
    let n = double::units_of(x.magnitude()) * 10;
    let d = double::one_in_units();
    let tenths = rounding::nearest_whole(n, d);
    let t = decimal::one_decimal(x);
    let front = decimal::number_text(tenths / 10);
    let last = decimal::digit_text(tenths % 10);
    server_laws::lemma_number_reads_back(tenths / 10);
    assert(t =~= front + seq!['.', last]);
    assert(t.take(t.len() - 2) =~= front);
    assert(front.push(last).drop_last() =~= front);
    vstd::arithmetic::div_mod::lemma_fundamental_div_mod(n as int, d as int);
    assert(d * (n / d + 1) == d * (n / d) + d) by (nonlinear_arith);
    assert(tenths * one == d * tenths) by (nonlinear_arith)
        requires
            one == d,
    ;
    tenths
}

/// A number below zero is shown as its opposite is, with the other sign.
pub proof fn lemma_shown_with_sign(x: Double)
    requires
        x.is_finite(),
    ensures
        scoring::thousandths(double::opposite(x)) == double::opposite(scoring::thousandths(x)),
{
    order::lemma_whole_exact(1000);
    let thousand = double::whole(1000);
    lemma_opposite_product(x, thousand);
    let y = double::product(x, thousand);
    double::lemma_product_is_number(x, thousand);
    lemma_opposite_rounded(y);
    double::lemma_rounded_is_number(y);
    lemma_opposite_quotient(double::rounded(y), thousand);
}

proof fn lemma_opposite_product(x: Double, y: Double)
    requires
        !x.is_nan(),
        order::is_positive(y),
    ensures
        double::product(double::opposite(x), y) == double::opposite(double::product(x, y)),
{
    reveal(double::product);
}

proof fn lemma_opposite_quotient(x: Double, y: Double)
    requires
        !x.is_nan(),
        order::is_positive(y),
    ensures
        double::quotient(double::opposite(x), y) == double::opposite(double::quotient(x, y)),
{
    reveal(double::quotient);
}

proof fn lemma_opposite_rounded(x: Double)
    requires
        !x.is_nan(),
    ensures
        double::rounded(double::opposite(x)) == double::opposite(double::rounded(x)),
{
    reveal(double::rounded);
}

} // verus!
