//! What holds of the results of judging a model.

use vstd::prelude::*;
use crate::accuracy;
use crate::advice_laws;
use crate::catalog;
use crate::catalog::Candidate;
use crate::decimal;
use crate::double;
use crate::double::Double;
use crate::download;
use crate::download_laws;
use crate::hardware;
use crate::hardware::HardwareProfile;
use crate::machine_laws;
use crate::number_laws;
use crate::order;
use crate::place;
use crate::scoring;
use crate::scoring::{Assessment, Recommendation, RecommendationRequest};
use crate::scoring_values;
use crate::search_laws;
use crate::text;

verus! {

/// A recommendation is about the candidate that was judged, shows the scores that it has for
/// this machine and this request, and says where to download it.
pub proof fn lemma_judged(
    candidate: Candidate,
    machine: HardwareProfile,
    request: RecommendationRequest,
    download_log: Double,
    r: Recommendation,
) -> (held: Double)
    requires
        call_ensures(
            scoring::score_candidate,
            (&candidate, &machine, &request, download_log),
            r,
        ),
    ensures
        ({
            let lower = text::lowercase(
                candidate.repo_id@ + " "@ + candidate.filename@ + " "@ + text::joined(
                    text::views(candidate.tags@),
                    " "@,
                ),
            );
            let memory = scoring::memory_of(candidate@);
            let fit = scoring::fit_of(memory, machine);
            let offload = scoring::offloads(memory, machine);
            let speed = scoring::speed_of(candidate@, offload);
            let safety = scoring::safety_of(memory, machine);
            let quality = scoring::quality_from(
                scoring::family_rate(lower),
                match candidate.parameter_billions {
                    Some(n) => n,
                    None => double::whole(3),
                },
            );
            &&& r.repo_id@ == candidate.repo_id@
            &&& r.filename@ == candidate.filename@
            &&& r.parameter_billions == candidate.parameter_billions
            &&& r.size_gb == candidate.size_gb
            &&& r.quantization is Some <==> candidate.quantization is Some
            &&& r.quantization is Some ==> r.quantization->0@ == candidate.quantization->0@
            &&& r.estimated_memory_gb == scoring::thousandths(memory)
            &&& r.fit_score == scoring::thousandths(fit)
            &&& r.quality_score == scoring::thousandths(quality)
            &&& r.speed_score == scoring::thousandths(speed)
            &&& r.safety_margin_score == scoring::thousandths(safety)
            &&& r.score == scoring::thousandths(
                scoring::overall(
                    fit,
                    quality,
                    speed,
                    safety,
                    scoring::popularity_of(download_log, candidate.likes),
                    held,
                    scoring::suits(lower, request.task@),
                ),
            )
            &&& r.download_url@ == "https://huggingface.co/"@ + candidate.repo_id@
                + "/resolve/main/"@ + scoring::escaped(candidate.filename@)
        }),
        request.speed_quality_preference.is_finite() ==> held.is_finite() && held.value()
            == advice_laws::counted(request.speed_quality_preference.value()),
{
    let lower = text::lowercase(scoring::description(candidate@));
    let a = scoring::assessment_of(
        candidate@,
        lower,
        machine,
        request.task@,
        request.speed_quality_preference,
        download_log,
    );
    let held = advice_laws::lemma_assessment_parts(
        candidate@,
        lower,
        machine,
        request.task@,
        request.speed_quality_preference,
        download_log,
    );
    advice_laws::lemma_recommendation_is_about(candidate@, machine, a);
    let view = r@;
    assert(view.repo_id == r.repo_id@ && view.quantization == catalog::optional_view(
        r.quantization,
    ));
    held
}

/// The memory that a recommendation shows is the estimate, to half a thousandth and a little.
pub proof fn lemma_shown_memory(
    candidate: Candidate,
    machine: HardwareProfile,
    request: RecommendationRequest,
    download_log: Double,
    r: Recommendation,
) -> (k: nat)
    requires
        call_ensures(
            scoring::score_candidate,
            (&candidate, &machine, &request, download_log),
            r,
        ),
        scoring::memory_of(candidate@).is_finite(),
        !scoring::memory_of(candidate@).is_negative(),
        scoring::memory_of(candidate@).value() <= 1_000_000_000 * accuracy::one(),
    ensures
        r.estimated_memory_gb == double::nearest(k, 1000),
        1000 * double::absolute(
            1000 * scoring::memory_of(candidate@).value() - k * accuracy::one(),
        ) <= 501 * accuracy::one(),
{
    let held = lemma_judged(candidate, machine, request, download_log, r);
    advice_laws::lemma_shown_thousandths(scoring::memory_of(candidate@))
}

/// The speed goes by the quantization, by the parameters and by the graphics adapter.
pub proof fn lemma_speed_scored(candidate: Candidate, offload: bool, r: Double, billions: int)
    requires
        call_ensures(scoring::speed_score, (&candidate, offload), r),
        candidate.parameter_billions matches Some(n) ==> order::is_natural(n) && n.value()
            == billions,
        candidate.parameter_billions is None ==> billions == 7 * accuracy::one(),
    ensures
        candidate.quantization is None ==> scoring_values::runs(r, 84, billions, offload),
        candidate.quantization matches Some(q) ==> {
            &&& "Q2"@.is_prefix_of(q@) ==> scoring_values::runs(r, 95, billions, offload)
            &&& "Q3"@.is_prefix_of(q@) ==> scoring_values::runs(r, 90, billions, offload)
            &&& "Q4"@.is_prefix_of(q@) ==> scoring_values::runs(r, 84, billions, offload)
            &&& "Q5"@.is_prefix_of(q@) ==> scoring_values::runs(r, 72, billions, offload)
            &&& "Q6"@.is_prefix_of(q@) ==> scoring_values::runs(r, 62, billions, offload)
            &&& "Q8"@.is_prefix_of(q@) ==> scoring_values::runs(r, 46, billions, offload)
            &&& q@ == "F16"@ ==> scoring_values::runs(r, 25, billions, offload)
        },
{
    scoring_values::lemma_speed_value(candidate@, offload, billions);
}

/// The quality goes by the family that the description names, in whatever case, and by the
/// parameters.
pub proof fn lemma_quality_scored(candidate: Candidate, r: Double)
    requires
        call_ensures(scoring::quality_score, (&candidate,), r),
        candidate.parameter_billions matches Some(n) ==> order::is_natural(n),
    ensures
        ({
            let one = accuracy::one();
            let billions = if candidate.parameter_billions is Some {
                candidate.parameter_billions->0.value()
            } else {
                3 * one
            };
            let family = scoring::family_rate(text::lowercase(scoring::description(candidate@)));
            scoring_values::is_within(
                140_000 * r.value(),
                scoring_values::least(
                    1148 * (family * one) + 1800 * scoring_values::least(billions, 14 * one),
                    140_000 * one,
                ),
                2_000_000,
            )
        }),
{
    scoring_values::lemma_quality_of_candidate(candidate@);
}

/// The safety margin is one and a half times the part of the usable memory that is left.
pub proof fn lemma_safety_scored(memory: Double, machine: HardwareProfile, r: Double)
    requires
        call_ensures(scoring::safety_margin, (memory, &machine), r),
        hardware::is_measured(machine),
        memory.is_finite(),
        memory.value() >= 0,
    ensures
        ({
            let usable = scoring::effective_ram(machine).value();
            let m = memory.value();
            let one = accuracy::one();
            &&& m >= usable ==> r.value() == 0
            &&& m < usable ==> double::absolute(
                2 * (usable * r.value()) - scoring_values::least(
                    3 * ((usable - m) * one),
                    2 * (usable * one),
                ),
            ) <= 20 * (usable * order::grain())
        }),
{
    scoring_values::lemma_safety_value(memory, machine);
}

/// The popularity grows with the downloads and with the first 500 likes.
pub proof fn lemma_popularity_scored(download_log: Double, likes: u64, r: Double)
    requires
        call_ensures(scoring::popularity, (download_log, likes), r),
        order::is_natural(download_log),
    ensures
        scoring_values::is_within(
            3000 * r.value(),
            scoring_values::least(
                500 * download_log.value() + scoring_values::least(likes as int, 500)
                    * accuracy::one(),
                3000 * accuracy::one(),
            ),
            20_000,
        ),
{
    scoring_values::lemma_popularity_value(download_log, likes);
}

/// A number is rounded to the nearest thousandth.
pub proof fn lemma_round3(x: Double, r: Double) -> (k: nat)
    requires
        call_ensures(scoring::round3, (x,), r),
        x.is_finite(),
        !x.is_negative(),
        x.value() <= 1_000_000_000 * accuracy::one(),
    ensures
        r == double::nearest(k, 1000),
        1000 * double::absolute(1000 * x.value() - k * accuracy::one()) <= 501 * accuracy::one(),
{
    advice_laws::lemma_shown_thousandths(x)
}

/// A size in bytes is rounded to the nearest tenth of a gigabyte.
pub proof fn lemma_bytes_to_gb(bytes: u64, r: Double) -> (tenths: nat)
    requires
        call_ensures(hardware::bytes_to_gb, (bytes,), r),
    ensures
        r == double::nearest(tenths, 10),
        1000 * double::absolute(20 * bytes - 2 * (machine_laws::gigabyte() * tenths)) <= 1001
            * machine_laws::gigabyte(),
{
    machine_laws::lemma_size_in_tenths(bytes)
}

/// A file is downloaded from its repository under its name, in which spaces and number signs
/// are escaped and nothing else is changed.
pub proof fn lemma_download_address(repo_id: &str, a: &str, b: &str, x: String, y: String)
    requires
        call_ensures(scoring::download_url, (repo_id, a), x),
        call_ensures(scoring::download_url, (repo_id, b), y),
    ensures
        !a@.contains(' ') && !a@.contains('#') ==> x@ == "https://huggingface.co/"@ + repo_id@
            + "/resolve/main/"@ + a@,
        b@ == a@ + " "@ ==> y@ == x@ + "%20"@,
        b@ == a@ + "#"@ ==> y@ == x@ + "%23"@,
{
    reveal_strlit(" ");
    reveal_strlit("#");
    reveal_strlit("%20");
    reveal_strlit("%23");
    crate::scoring_laws::lemma_escaped(a@);
    advice_laws::lemma_escaped_adds(a@, " "@, 'x');
    advice_laws::lemma_escaped_adds(a@, "#"@, 'x');
    assert(" "@ =~= seq![' ']);
    assert("#"@ =~= seq!['#']);
    assert("%20"@ =~= seq!['%', '2', '0']);
    assert("%23"@ =~= seq!['%', '2', '3']);
    let head = "https://huggingface.co/"@ + repo_id@ + "/resolve/main/"@;
    assert(head + (scoring::escaped(a@) + "%20"@) =~= head + scoring::escaped(a@) + "%20"@);
    assert(head + (scoring::escaped(a@) + "%23"@) =~= head + scoring::escaped(a@) + "%23"@);
}

/// A model whose ASCII description holds one of the words that a task asks for suits it.
pub proof fn lemma_suited(candidate: Candidate, task: &str, r: bool)
    requires
        call_ensures(scoring::task_matches, (&candidate, task), r),
        text::is_ascii(scoring::description(candidate@)),
    ensures
        ({
            let lower = text::plain_lowercase(scoring::description(candidate@));
            &&& task@ == "coding"@ ==> (r <==> text::occurs("coder"@, lower) || text::occurs(
                "code"@,
                lower,
            ))
            &&& task@ == "writing"@ ==> (r <==> text::occurs("llama"@, lower) || text::occurs(
                "mistral"@,
                lower,
            ) || text::occurs("story"@, lower))
            &&& task@ == "research"@ ==> (r <==> text::occurs("deepseek"@, lower) || text::occurs(
                "qwen"@,
                lower,
            ) || text::occurs("reason"@, lower))
            &&& task@ == "small-business"@ ==> (r <==> text::occurs("instruct"@, lower)
                || text::occurs("chat"@, lower))
            &&& task@ != "coding"@ && task@ != "writing"@ && task@ != "research"@ && task@
                != "small-business"@ ==> r
        }),
{
    advice_laws::lemma_suited_by_words(
        text::plain_lowercase(scoring::description(candidate@)),
        task@,
    );
}

/// What is decided goes by the fit, by the quality and by the speed.
pub proof fn lemma_decided(a: Assessment, r: String)
    requires
        call_ensures(scoring::decision, (&a,), r),
        a.fit.is_finite(),
        a.quality.is_finite(),
        a.speed.is_finite(),
    ensures
        ({
            let one = accuracy::one();
            let fit = a.fit.value();
            &&& 10 * fit < 4 * one - 10 * order::grain() ==> r@
                == "Not recommended for this computer."@
            &&& 10 * fit > 4 * one + 10 * order::grain() && a.quality.value() < a.speed.value()
                ==> r@ == "Best for fast, low-friction local chat."@
        }),
{
    advice_laws::lemma_decision(a);
}

/// The words that are searched for, and the address that asks for them.
pub proof fn lemma_search_address(task: &str, query: &str, hint: String, r: Result<String, String>)
    requires
        call_ensures(catalog::search_hint, (task, query), hint),
        call_ensures(catalog::search_url, (task, query), r),
    ensures
        task@ != "coding"@ && task@ != "writing"@ && task@ != "research"@ && task@
            != "small-business"@ ==> hint@ == query@,
        task@ == "coding"@ ==> hint@ == "GGUF coder instruct"@,
        task@ == "writing"@ ==> hint@ == "GGUF instruct llama mistral"@,
        task@ == "research"@ ==> hint@ == "GGUF reasoning instruct qwen deepseek"@,
        task@ == "small-business"@ ==> hint@ == "GGUF instruct small"@,
        r is Ok,
        r->Ok_0@ == "https://huggingface.co/api/models"@ + "?"@ + catalog::query_of(
            seq![
                ("search"@, hint@),
                ("sort"@, "downloads"@),
                ("direction"@, "-1"@),
                ("limit"@, "50"@),
                ("full"@, "true"@),
            ],
        ),
{
    search_laws::lemma_words_to_search(task@, query@);
    search_laws::lemma_search_asks_for(hint@);
}

/// The name of the incomplete file: `partial` in place of the last extension.
pub proof fn lemma_partial_named(
    name: &str,
    r: String,
    front: Seq<char>,
    extension: Seq<char>,
)
    requires
        call_ensures(place::partial_name, (name,), r),
        front.len() > 0,
        !extension.contains('.'),
        name@ == front + seq!['.'] + extension,
    ensures
        r@ == front + ".partial"@,
{
    download_laws::lemma_partial_keeps_name(front, extension);
}

/// The folder of a repository: below that of the models, with underscores for separators.
pub proof fn lemma_folder_named(repo_id: &str, r: Vec<String>, i: int)
    requires
        call_ensures(download::model_folder, (repo_id,), r),
        0 <= i < repo_id@.len(),
    ensures
        r@.len() == 2,
        r@[0]@ == "models"@,
        r@[1]@.len() == repo_id@.len(),
        repo_id@[i] == '/' || repo_id@[i] == '\\' || repo_id@[i] == ':' ==> r@[1]@[i] == '_',
        repo_id@[i] != '/' && repo_id@[i] != '\\' && repo_id@[i] != ':' ==> r@[1]@[i]
            == repo_id@[i],
{
    let views = text::views(r@);
    assert(views.len() == r@.len());
    assert(views[0] == r@[0]@ && views[1] == r@[1]@);
    download_laws::lemma_sanitized_characters(repo_id@, i);
}

/// A number that is written with one digit behind the point reads back, to half a tenth.
pub proof fn lemma_written_with_one_decimal(x: Double, r: String) -> (tenths: nat)
    requires
        call_ensures(decimal::with_one_decimal, (x,), r),
        x.is_finite(),
        !x.is_negative(),
    ensures
        r@.len() >= 3,
        r@[r@.len() - 2] == '.',
        decimal::are_digits(r@.take(r@.len() - 2)),
        decimal::digits_value(r@.take(r@.len() - 2).push(r@.last())) == tenths,
        2 * double::absolute(10 * x.value() - tenths * accuracy::one()) <= accuracy::one(),
{
    advice_laws::lemma_one_decimal_reads_back(x)
}

/// What is added, multiplied and divided comes out as the nearest number.
pub proof fn lemma_calculated(a: Double, b: Double, c: Double, sum: Double, product: Double, quotient: Double)
    requires
        call_ensures(Double::plus, (a, b), sum),
        call_ensures(Double::times, (a, b), product),
        call_ensures(Double::over, (a, b), quotient),
        a.is_finite(),
        order::is_positive(b),
        c.is_finite(),
        sum.is_finite(),
        product.is_finite(),
        quotient.is_finite(),
    ensures
        double::absolute(sum.value() - (a.value() + b.value())) <= double::absolute(
            c.value() - (a.value() + b.value()),
        ),
        double::absolute(accuracy::one() * product.value() - a.value() * b.value())
            <= double::absolute(accuracy::one() * c.value() - a.value() * b.value()),
        double::absolute(b.value() * quotient.value() - a.value() * accuracy::one())
            <= double::absolute(b.value() * c.value() - a.value() * accuracy::one()),
{
    number_laws::lemma_sum_is_nearest(a, b, c);
    number_laws::lemma_product_is_nearest(a, b, c);
    number_laws::lemma_quotient_is_nearest(a, b, c);
}

} // verus!
