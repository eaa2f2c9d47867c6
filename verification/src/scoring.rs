//! How well a model file suits a machine and a request.

use vstd::prelude::*;
use crate::catalog;
use crate::catalog::{Candidate, CandidateView};
use crate::decimal;
use crate::double;
use crate::double::Double;
use crate::hardware;
use crate::hardware::HardwareProfile;
use crate::text;

verus! {

/// What the user asks for. The preference runs from speed, 0, to quality, 1.
#[derive(Clone, Debug)]
pub struct RecommendationRequest {
    pub task: String,
    pub query: String,
    pub speed_quality_preference: Double,
    pub limit: usize,
}

/// A judged model file.
#[derive(Clone, Debug)]
pub struct Recommendation {
    pub repo_id: String,
    pub filename: String,
    pub quantization: Option<String>,
    pub parameter_billions: Option<Double>,
    pub size_gb: Option<Double>,
    pub score: Double,
    pub fit_score: Double,
    pub quality_score: Double,
    pub speed_score: Double,
    pub safety_margin_score: Double,
    pub estimated_memory_gb: Double,
    pub gpu_layers: i32,
    pub context_size: u32,
    pub decision: String,
    pub reasons: Vec<String>,
    pub cautions: Vec<String>,
    pub download_url: String,
}

/// What a recommendation says.
#[verifier::ext_equal]
pub struct RecommendationView {
    pub repo_id: Seq<char>,
    pub filename: Seq<char>,
    pub quantization: Option<Seq<char>>,
    pub parameter_billions: Option<Double>,
    pub size_gb: Option<Double>,
    pub score: Double,
    pub fit_score: Double,
    pub quality_score: Double,
    pub speed_score: Double,
    pub safety_margin_score: Double,
    pub estimated_memory_gb: Double,
    pub gpu_layers: i32,
    pub context_size: u32,
    pub decision: Seq<char>,
    pub reasons: Seq<Seq<char>>,
    pub cautions: Seq<Seq<char>>,
    pub download_url: Seq<char>,
}

impl View for Recommendation {
    type V = RecommendationView;

    open spec fn view(&self) -> RecommendationView {
        RecommendationView {
            repo_id: self.repo_id@,
            filename: self.filename@,
            quantization: catalog::optional_view(self.quantization),
            parameter_billions: self.parameter_billions,
            size_gb: self.size_gb,
            score: self.score,
            fit_score: self.fit_score,
            quality_score: self.quality_score,
            speed_score: self.speed_score,
            safety_margin_score: self.safety_margin_score,
            estimated_memory_gb: self.estimated_memory_gb,
            gpu_layers: self.gpu_layers,
            context_size: self.context_size,
            decision: self.decision@,
            reasons: text::views(self.reasons@),
            cautions: text::views(self.cautions@),
            download_url: self.download_url@,
        }
    }
}

/// How coarsely the weights of a model are stored.
#[derive(Clone, Copy, Debug, PartialEq, Eq, Structural)]
pub enum Precision {
    Two,
    Three,
    Four,
    Five,
    Six,
    Eight,
    Half,
    Other,
}

/// The precision that a quantization stands for; without one, that of `Q4`.
pub open spec fn precision_of(quantization: Option<Seq<char>>) -> Precision {
    match quantization {
        None => Precision::Four,
        Some(q) => if "Q2"@.is_prefix_of(q) {
            Precision::Two
        } else if "Q3"@.is_prefix_of(q) {
            Precision::Three
        } else if "Q4"@.is_prefix_of(q) {
            Precision::Four
        } else if "Q5"@.is_prefix_of(q) {
            Precision::Five
        } else if "Q6"@.is_prefix_of(q) {
            Precision::Six
        } else if "Q8"@.is_prefix_of(q) {
            Precision::Eight
        } else if q == "F16"@ {
            Precision::Half
        } else {
            Precision::Other
        },
    }
}

/// The precision that a quantization stands for.
pub fn precision(quantization: &Option<String>) -> (r: Precision)
    ensures
        r == precision_of(catalog::optional_view(*quantization)),
{
    match quantization {
        None => Precision::Four,
        Some(q) => {
            let q: &str = q.as_str();
            if text::starts_with(q, "Q2") {
                Precision::Two
            } else if text::starts_with(q, "Q3") {
                Precision::Three
            } else if text::starts_with(q, "Q4") {
                Precision::Four
            } else if text::starts_with(q, "Q5") {
                Precision::Five
            } else if text::starts_with(q, "Q6") {
                Precision::Six
            } else if text::starts_with(q, "Q8") {
                Precision::Eight
            } else if text::same(q, "F16") {
                Precision::Half
            } else {
                Precision::Other
            }
        },
    }
}

/// Hundredths of a gigabyte of memory for each billion parameters.
pub open spec fn memory_rate(p: Precision) -> nat {
    match p {
        Precision::Two => 32,
        Precision::Three => 42,
        Precision::Four => 55,
        Precision::Five => 68,
        Precision::Six => 80,
        Precision::Eight => 105,
        Precision::Half => 205,
        Precision::Other => 55,
    }
}

/// How fast a precision runs, in hundredths.
pub open spec fn speed_rate(p: Precision) -> nat {
    match p {
        Precision::Two => 95,
        Precision::Three => 90,
        Precision::Four => 84,
        Precision::Five => 72,
        Precision::Six => 62,
        Precision::Eight => 46,
        Precision::Half => 25,
        Precision::Other => 70,
    }
}

/// The number of parameters in billions, or what is taken for it.
pub open spec fn parameters_or(candidate: CandidateView, default: nat) -> Double {
    match candidate.parameter_billions {
        Some(n) => n,
        None => double::whole(default),
    }
}

/// The memory, in gigabytes, that a model takes when it is loaded.
pub open spec fn memory_of(candidate: CandidateView) -> Double {
    match candidate.size_gb {
        Some(size) => double::sum(
            double::product(size, double::nearest(125, 100)),
            double::nearest(75, 100),
        ),
        None => double::sum(
            double::product(
                parameters_or(candidate, 7),
                double::nearest(memory_rate(precision_of(candidate.quantization)), 100),
            ),
            double::nearest(125, 100),
        ),
    }
}

fn parameters(candidate: &Candidate, default: u64) -> (r: Double)
    ensures
        r == parameters_or(candidate@, default as nat),
{
    match candidate.parameter_billions {
        Some(n) => n,
        None => Double::whole(default),
    }
}

/// The memory, in gigabytes, that a model takes when it is loaded.
pub fn estimate_memory(candidate: &Candidate) -> (r: Double)
    ensures
        r == memory_of(candidate@),
{
    if let Some(size) = candidate.size_gb {
        return size.times(Double::ratio(125, 100)).plus(Double::ratio(75, 100));
    }
    let rate: u64 = match precision(&candidate.quantization) {
        Precision::Two => 32,
        Precision::Three => 42,
        Precision::Four => 55,
        Precision::Five => 68,
        Precision::Six => 80,
        Precision::Eight => 105,
        Precision::Half => 205,
        Precision::Other => 55,
    };
    parameters(candidate, 7).times(Double::ratio(rate, 100)).plus(Double::ratio(125, 100))
}

/// What a candidate's names and tags say, in one text.
pub open spec fn description(candidate: CandidateView) -> Seq<char> {
    candidate.repo_id + " "@ + candidate.filename + " "@ + text::joined(candidate.tags, " "@)
}

/// What a candidate's names and tags say, in lower case.
pub fn describe(candidate: &Candidate) -> (r: String)
    ensures
        r@ == text::lowercase(description(candidate@)),
        text::is_ascii(description(candidate@)) ==> r@ == text::plain_lowercase(
            description(candidate@),
        ),
{
    let tags = text::join(&candidate.tags, " ");
    let whole = candidate.repo_id.clone().concat(" ").concat(candidate.filename.as_str()).concat(
        " ",
    ).concat(tags.as_str());
    whole.as_str().to_lowercase()
}

/// The quality of a family of models, in hundredths, by a description in lower case.
pub open spec fn family_rate(lower: Seq<char>) -> nat {
    if text::occurs("deepseek"@, lower) {
        91
    } else if text::occurs("qwen"@, lower) {
        89
    } else if text::occurs("llama"@, lower) {
        88
    } else if text::occurs("mistral"@, lower) {
        87
    } else if text::occurs("gemma"@, lower) {
        82
    } else if text::occurs("phi"@, lower) {
        78
    } else {
        72
    }
}

/// The quality of a family of models, in hundredths, by a description in lower case.
pub fn family_quality(lower: &str) -> (rate: u64)
    ensures
        rate == family_rate(lower@),
{
    if text::contains(lower, "deepseek") {
        91
    } else if text::contains(lower, "qwen") {
        89
    } else if text::contains(lower, "llama") {
        88
    } else if text::contains(lower, "mistral") {
        87
    } else if text::contains(lower, "gemma") {
        82
    } else if text::contains(lower, "phi") {
        78
    } else {
        72
    }
}

/// The quality of a model of the given family and number of parameters.
pub open spec fn quality_from(family: nat, parameters: Double) -> Double {
    double::smaller(
        double::sum(
            double::product(double::nearest(family, 100), double::nearest(82, 100)),
            double::product(
                double::smaller(
                    double::quotient(parameters, double::whole(14)),
                    double::whole(1),
                ),
                double::nearest(18, 100),
            ),
        ),
        double::whole(1),
    )
}

/// The quality of a model.
pub open spec fn quality_of(candidate: CandidateView) -> Double {
    quality_from(
        family_rate(text::lowercase(description(candidate))),
        parameters_or(candidate, 3),
    )
}

/// The quality of a model of the given family and number of parameters.
pub fn quality_by_family(family: u64, parameters: Double) -> (r: Double)
    ensures
        r == quality_from(family as nat, parameters),
{
    Double::ratio(family, 100).times(Double::ratio(82, 100)).plus(
        parameters.over(Double::whole(14)).min(Double::whole(1)).times(Double::ratio(18, 100)),
    ).min(Double::whole(1))
}

/// The quality of a model.
pub fn quality_score(candidate: &Candidate) -> (r: Double)
    ensures
        r == quality_of(candidate@),
        text::is_ascii(description(candidate@)) ==> r == quality_from(
            family_rate(text::plain_lowercase(description(candidate@))),
            parameters_or(candidate@, 3),
        ),
{
    let lower = describe(candidate);
    quality_by_family(family_quality(lower.as_str()), parameters(candidate, 3))
}

/// Whether a description in lower case suits a task.
pub open spec fn suits(lower: Seq<char>, task: Seq<char>) -> bool {
    if task == "coding"@ {
        text::occurs("coder"@, lower) || text::occurs("code"@, lower)
    } else if task == "writing"@ {
        text::occurs("llama"@, lower) || text::occurs("mistral"@, lower) || text::occurs(
            "story"@,
            lower,
        )
    } else if task == "research"@ {
        text::occurs("deepseek"@, lower) || text::occurs("qwen"@, lower) || text::occurs(
            "reason"@,
            lower,
        )
    } else if task == "small-business"@ {
        text::occurs("instruct"@, lower) || text::occurs("chat"@, lower)
    } else {
        true
    }
}

/// Whether a description in lower case suits a task.
pub fn description_suits(lower: &str, task: &str) -> (r: bool)
    ensures
        r == suits(lower@, task@),
{
    if text::same(task, "coding") {
        text::contains(lower, "coder") || text::contains(lower, "code")
    } else if text::same(task, "writing") {
        text::contains(lower, "llama") || text::contains(lower, "mistral") || text::contains(
            lower,
            "story",
        )
    } else if text::same(task, "research") {
        text::contains(lower, "deepseek") || text::contains(lower, "qwen") || text::contains(
            lower,
            "reason",
        )
    } else if text::same(task, "small-business") {
        text::contains(lower, "instruct") || text::contains(lower, "chat")
    } else {
        true
    }
}

/// Whether a candidate suits a task.
pub fn task_matches(candidate: &Candidate, task: &str) -> (r: bool)
    ensures
        r == suits(text::lowercase(description(candidate@)), task@),
        text::is_ascii(description(candidate@)) ==> r == suits(
            text::plain_lowercase(description(candidate@)),
            task@,
        ),
{
    let lower = describe(candidate);
    description_suits(lower.as_str(), task)
}

/// The memory, in gigabytes, that a model may take: what is free, as long as it leaves a
/// part of the machine's memory alone, and one gigabyte at least.
pub open spec fn effective_ram(hardware: HardwareProfile) -> Double {
    double::larger(
        double::smaller(
            hardware.available_ram_gb,
            double::product(hardware.total_ram_gb, double::nearest(72, 100)),
        ),
        double::whole(1),
    )
}

/// How well an amount of memory fits the machine.
pub open spec fn fit_of(memory: Double, hardware: HardwareProfile) -> Double {
    let effective = effective_ram(hardware);
    if double::at_most(memory, double::product(effective, double::nearest(75, 100))) {
        double::whole(1)
    } else if double::at_most(memory, effective) {
        double::nearest(72, 100)
    } else if double::at_most(
        memory,
        double::product(hardware.total_ram_gb, double::nearest(85, 100)),
    ) {
        double::nearest(38, 100)
    } else {
        double::nearest(8, 100)
    }
}

/// Whether the graphics memory holds most of the model.
pub open spec fn offloads(memory: Double, hardware: HardwareProfile) -> bool {
    double::at_most(
        double::product(memory, double::nearest(72, 100)),
        hardware::vram_of(hardware.vram_gb),
    )
}

/// How fast a model answers.
pub open spec fn speed_of(candidate: CandidateView, offload: bool) -> Double {
    let penalty = double::product(
        double::smaller(
            double::quotient(parameters_or(candidate, 7), double::whole(20)),
            double::whole(1),
        ),
        double::nearest(35, 100),
    );
    double::confined(
        double::sum(
            double::difference(
                double::nearest(speed_rate(precision_of(candidate.quantization)), 100),
                penalty,
            ),
            if offload {
                double::nearest(20, 100)
            } else {
                double::whole(0)
            },
        ),
        double::nearest(5, 100),
        double::whole(1),
    )
}

/// How much of the memory a model leaves free.
pub open spec fn safety_of(memory: Double, hardware: HardwareProfile) -> Double {
    let effective = effective_ram(hardware);
    double::confined(
        double::product(
            double::quotient(double::difference(effective, memory), effective),
            double::nearest(15, 10),
        ),
        double::whole(0),
        double::whole(1),
    )
}

/// The likes that count.
pub open spec fn counted_likes(likes: u64) -> nat {
    if likes < 500 {
        likes as nat
    } else {
        500
    }
}

/// How well liked a model is, by the decimal logarithm of its downloads and its likes.
pub open spec fn popularity_of(download_log: Double, likes: u64) -> Double {
    double::smaller(
        double::sum(
            double::quotient(download_log, double::whole(6)),
            double::quotient(double::whole(counted_likes(likes)), double::whole(3000)),
        ),
        double::whole(1),
    )
}

/// The scores of a candidate, before they are rounded.
#[derive(Clone, Copy, Debug)]
pub struct Assessment {
    pub memory: Double,
    pub fit: Double,
    pub quality: Double,
    pub speed: Double,
    pub safety: Double,
    pub score: Double,
    pub offload: bool,
}

/// What the quality counts for, by the preference.
pub open spec fn quality_weight(preference: Double) -> Double {
    double::sum(double::nearest(12, 100), double::product(preference, double::nearest(18, 100)))
}

/// What the speed counts for, by the preference.
pub open spec fn speed_weight(preference: Double) -> Double {
    double::difference(
        double::nearest(25, 100),
        double::product(preference, double::nearest(12, 100)),
    )
}

/// The weighted sum of the partial scores.
pub open spec fn overall(
    fit: Double,
    quality: Double,
    speed: Double,
    safety: Double,
    popularity: Double,
    preference: Double,
    suited: bool,
) -> Double {
    let weighted_fit = double::product(fit, double::nearest(37, 100));
    let weighted_quality = double::product(quality, quality_weight(preference));
    let weighted_speed = double::product(speed, speed_weight(preference));
    let bonus = if suited {
        double::nearest(6, 100)
    } else {
        double::whole(0)
    };
    double::confined(
        double::sum(
            double::sum(
                double::sum(
                    double::sum(double::sum(weighted_fit, weighted_quality), weighted_speed),
                    double::product(safety, double::nearest(15, 100)),
                ),
                double::product(popularity, double::nearest(8, 100)),
            ),
            bonus,
        ),
        double::whole(0),
        double::whole(1),
    )
}

/// The scores of a candidate whose description in lower case is `lower`.
pub open spec fn assessment_of(
    candidate: CandidateView,
    lower: Seq<char>,
    hardware: HardwareProfile,
    task: Seq<char>,
    preference: Double,
    download_log: Double,
) -> Assessment {
    let memory = memory_of(candidate);
    let fit = fit_of(memory, hardware);
    let quality = quality_from(family_rate(lower), parameters_or(candidate, 3));
    let offload = offloads(memory, hardware);
    let speed = speed_of(candidate, offload);
    let safety = safety_of(memory, hardware);
    Assessment {
        memory,
        fit,
        quality,
        speed,
        safety,
        score: overall(
            fit,
            quality,
            speed,
            safety,
            popularity_of(download_log, candidate.likes),
            double::confined(preference, double::whole(0), double::whole(1)),
            suits(lower, task),
        ),
        offload,
    }
}

fn usable_ram(hardware: &HardwareProfile) -> (r: Double)
    ensures
        r == effective_ram(*hardware),
{
    hardware.available_ram_gb.min(hardware.total_ram_gb.times(Double::ratio(72, 100))).max(
        Double::whole(1),
    )
}

fn graphics_memory(hardware: &HardwareProfile) -> (r: Double)
    ensures
        r == hardware::vram_of(hardware.vram_gb),
{
    match hardware.vram_gb {
        Some(v) => v,
        None => Double::whole(0),
    }
}

/// How well an amount of memory fits the machine.
pub fn fit_score(memory: Double, hardware: &HardwareProfile) -> (r: Double)
    ensures
        r == fit_of(memory, *hardware),
{
    let effective = usable_ram(hardware);
    if memory.is_at_most(effective.times(Double::ratio(75, 100))) {
        Double::whole(1)
    } else if memory.is_at_most(effective) {
        Double::ratio(72, 100)
    } else if memory.is_at_most(hardware.total_ram_gb.times(Double::ratio(85, 100))) {
        Double::ratio(38, 100)
    } else {
        Double::ratio(8, 100)
    }
}

/// How fast a model answers.
pub fn speed_score(candidate: &Candidate, offload: bool) -> (r: Double)
    ensures
        r == speed_of(candidate@, offload),
{
    let rate: u64 = match precision(&candidate.quantization) {
        Precision::Two => 95,
        Precision::Three => 90,
        Precision::Four => 84,
        Precision::Five => 72,
        Precision::Six => 62,
        Precision::Eight => 46,
        Precision::Half => 25,
        Precision::Other => 70,
    };
    let penalty = parameters(candidate, 7).over(Double::whole(20)).min(Double::whole(1)).times(
        Double::ratio(35, 100),
    );
    let bonus = if offload { Double::ratio(20, 100) } else { Double::whole(0) };
    Double::ratio(rate, 100).minus(penalty).plus(bonus).clamp(
        Double::ratio(5, 100),
        Double::whole(1),
    )
}

/// How much of the memory a model leaves free.
pub fn safety_margin(memory: Double, hardware: &HardwareProfile) -> (r: Double)
    ensures
        r == safety_of(memory, *hardware),
{
    let effective = usable_ram(hardware);
    effective.minus(memory).over(effective).times(Double::ratio(15, 10)).clamp(
        Double::whole(0),
        Double::whole(1),
    )
}

/// How well liked a model is, by the decimal logarithm of its downloads and its likes.
pub fn popularity(download_log: Double, likes: u64) -> (r: Double)
    ensures
        r == popularity_of(download_log, likes),
{
    let counted: u64 = if likes < 500 { likes } else { 500 };
    download_log.over(Double::whole(6)).plus(
        Double::whole(counted).over(Double::whole(3000)),
    ).min(Double::whole(1))
}

/// The number of downloads whose decimal logarithm counts: one at least.
pub fn counted_downloads(candidate: &Candidate) -> (n: u64)
    ensures
        n == if candidate.downloads > 1 {
            candidate.downloads
        } else {
            1
        },
{
    if candidate.downloads > 1 {
        candidate.downloads
    } else {
        1
    }
}

fn weighted(
    fit: Double,
    quality: Double,
    speed: Double,
    safety: Double,
    popularity: Double,
    preference: Double,
    suited: bool,
) -> (r: Double)
    ensures
        r == overall(fit, quality, speed, safety, popularity, preference, suited),
{
    let weighted_fit = fit.times(Double::ratio(37, 100));
    let weighted_quality = quality.times(
        Double::ratio(12, 100).plus(preference.times(Double::ratio(18, 100))),
    );
    let weighted_speed = speed.times(
        Double::ratio(25, 100).minus(preference.times(Double::ratio(12, 100))),
    );
    let bonus = if suited { Double::ratio(6, 100) } else { Double::whole(0) };
    weighted_fit.plus(weighted_quality).plus(weighted_speed).plus(
        safety.times(Double::ratio(15, 100)),
    ).plus(popularity.times(Double::ratio(8, 100))).plus(bonus).clamp(
        Double::whole(0),
        Double::whole(1),
    )
}

/// The scores of a candidate whose description in lower case is `lower`.
pub fn assess(
    candidate: &Candidate,
    lower: &str,
    hardware: &HardwareProfile,
    request: &RecommendationRequest,
    download_log: Double,
) -> (r: Assessment)
    ensures
        r == assessment_of(
            candidate@,
            lower@,
            *hardware,
            request.task@,
            request.speed_quality_preference,
            download_log,
        ),
{
    let memory = estimate_memory(candidate);
    let fit = fit_score(memory, hardware);
    let quality = quality_by_family(family_quality(lower), parameters(candidate, 3));
    let offload = memory.times(Double::ratio(72, 100)).is_at_most(graphics_memory(hardware));
    let speed = speed_score(candidate, offload);
    let safety = safety_margin(memory, hardware);
    let score = weighted(
        fit,
        quality,
        speed,
        safety,
        popularity(download_log, candidate.likes),
        request.speed_quality_preference.clamp(Double::whole(0), Double::whole(1)),
        description_suits(lower, request.task.as_str()),
    );
    Assessment { memory, fit, quality, speed, safety, score, offload }
}

/// A number rounded to thousandths.
pub open spec fn thousandths(x: Double) -> Double {
    double::quotient(
        double::rounded(double::product(x, double::whole(1000))),
        double::whole(1000),
    )
}

/// A number rounded to thousandths.
pub fn round3(value: Double) -> (r: Double)
    ensures
        r == thousandths(value),
{
    value.times(Double::whole(1000)).round().over(Double::whole(1000))
}

/// A character as it stands in an address.
pub open spec fn escaped_char(c: char) -> Seq<char> {
    if c == ' ' {
        "%20"@
    } else if c == '#' {
        "%23"@
    } else {
        seq![c]
    }
}

/// A file name as it stands in an address.
pub open spec fn escaped(filename: Seq<char>) -> Seq<char>
    decreases filename.len(),
{
    if filename.len() == 0 {
        Seq::empty()
    } else {
        escaped(filename.drop_last()) + escaped_char(filename.last())
    }
}

/// A file name as it stands in an address.
pub fn escape(filename: &str) -> (r: String)
    ensures
        r@ == escaped(filename@),
{
    let chars = text::characters(filename);
    let mut r = String::new();
    for i in 0..chars.len()
        invariant
            r@ == escaped(chars@.take(i as int)),
    {
        let c: char = chars[i];
        assert(chars@.take(i + 1).drop_last() == chars@.take(i as int));
        if c == ' ' {
            r.append("%20");
        } else if c == '#' {
            r.append("%23");
        } else {
            r.push(c);
        }
    }
    assert(chars@.take(chars.len() as int) == chars@);
    r
}

/// Where a model file is downloaded from.
pub open spec fn url_of(repo_id: Seq<char>, filename: Seq<char>) -> Seq<char> {
    "https://huggingface.co/"@ + repo_id + "/resolve/main/"@ + escaped(filename)
}

/// Where a model file is downloaded from.
pub fn download_url(repo_id: &str, filename: &str) -> (r: String)
    ensures
        r@ == url_of(repo_id@, filename@),
{
    "https://huggingface.co/".to_owned().concat(repo_id).concat("/resolve/main/").concat(
        escape(filename).as_str(),
    )
}

/// The layers to put on the graphics adapter for a model that is offloaded or not.
pub open spec fn layers_for(offload: bool, vram: Double) -> i32 {
    if offload {
        999
    } else if double::at_most(double::whole(4), vram) {
        20
    } else {
        0
    }
}

/// Whether a fit is good enough to say that the model fits.
pub open spec fn fits(fit: Double) -> bool {
    double::at_most(double::nearest(7, 10), fit)
}

/// What is said of a model that fits.
pub open spec fn fit_reason() -> Seq<char> {
    "The model fits within the memory currently available on this computer."@
}

/// What is said of a model that does not.
pub open spec fn memory_caution() -> Seq<char> {
    "Memory headroom is tight. Close other applications or choose a smaller quantization."@
}

/// What speaks for a model.
pub open spec fn reasons_for(
    a: Assessment,
    vram: Double,
    quantization: Option<Seq<char>>,
) -> Seq<Seq<char>> {
    let footprint = seq![
        "Estimated loaded footprint is about "@ + decimal::one_decimal(a.memory)
            + " GB including runtime overhead."@,
    ];
    let fitting = if fits(a.fit) {
        seq![fit_reason()]
    } else {
        Seq::empty()
    };
    let accelerated = if a.offload {
        seq![
            "The detected "@ + decimal::one_decimal(vram)
                + " GB of VRAM should support substantial GPU acceleration."@,
        ]
    } else {
        Seq::empty()
    };
    let stored = match quantization {
        Some(q) => seq![
            q
                + " is an appropriate speed, memory, and quality tradeoff for this hardware."@,
        ],
        None => Seq::empty(),
    };
    footprint + fitting + accelerated + stored
}

/// What speaks against a model.
pub open spec fn cautions_for(a: Assessment, has_gpu: bool) -> Seq<Seq<char>> {
    let tight = if fits(a.fit) {
        Seq::empty()
    } else {
        seq![memory_caution()]
    };
    let unaccelerated = if a.offload {
        Seq::empty()
    } else if has_gpu {
        seq!["Only partial GPU offload is likely; generation may lean heavily on the CPU."@]
    } else {
        seq!["No compatible GPU was detected, so generation will run primarily on the CPU."@]
    };
    tight + unaccelerated
}

/// The verdict on a model.
pub open spec fn decision_on(a: Assessment) -> Seq<char> {
    if double::less(a.fit, double::nearest(4, 10)) {
        "Not recommended for this computer."@
    } else if double::less(a.quality, a.speed) {
        "Best for fast, low-friction local chat."@
    } else if double::less(double::nearest(82, 100), a.quality) {
        "Best quality option that still appears to fit."@
    } else {
        "Balanced recommendation for this computer."@
    }
}

/// What an assessment says of a candidate.
pub open spec fn recommendation_of(
    candidate: CandidateView,
    hardware: HardwareProfile,
    a: Assessment,
) -> RecommendationView {
    let vram = hardware::vram_of(hardware.vram_gb);
    RecommendationView {
        repo_id: candidate.repo_id,
        filename: candidate.filename,
        quantization: candidate.quantization,
        parameter_billions: candidate.parameter_billions,
        size_gb: candidate.size_gb,
        score: thousandths(a.score),
        fit_score: thousandths(a.fit),
        quality_score: thousandths(a.quality),
        speed_score: thousandths(a.speed),
        safety_margin_score: thousandths(a.safety),
        estimated_memory_gb: thousandths(a.memory),
        gpu_layers: layers_for(a.offload, vram),
        context_size: hardware::context_size_for(hardware.total_ram_gb) as u32,
        decision: decision_on(a),
        reasons: reasons_for(a, vram, candidate.quantization),
        cautions: cautions_for(a, hardware.gpu_name is Some),
        download_url: url_of(candidate.repo_id, candidate.filename),
    }
}

fn reasons(a: &Assessment, vram: Double, quantization: &Option<String>) -> (r: Vec<String>)
    ensures
        text::views(r@) == reasons_for(*a, vram, catalog::optional_view(*quantization)),
{
    let mut r: Vec<String> = Vec::new();
    r.push(
        "Estimated loaded footprint is about ".to_owned().concat(
            decimal::with_one_decimal(a.memory).as_str(),
        ).concat(" GB including runtime overhead."),
    );
    if Double::ratio(7, 10).is_at_most(a.fit) {
        r.push(
            "The model fits within the memory currently available on this computer.".to_owned(),
        );
    }
    if a.offload {
        r.push(
            "The detected ".to_owned().concat(decimal::with_one_decimal(vram).as_str()).concat(
                " GB of VRAM should support substantial GPU acceleration.",
            ),
        );
    }
    if let Some(q) = quantization {
        r.push(
            q.clone().concat(
                " is an appropriate speed, memory, and quality tradeoff for this hardware.",
            ),
        );
    }
    assert(text::views(r@) =~= reasons_for(*a, vram, catalog::optional_view(*quantization)));
    r
}

fn cautions(a: &Assessment, has_gpu: bool) -> (r: Vec<String>)
    ensures
        text::views(r@) == cautions_for(*a, has_gpu),
{
    let mut r: Vec<String> = Vec::new();
    if !Double::ratio(7, 10).is_at_most(a.fit) {
        r.push(
            "Memory headroom is tight. Close other applications or choose a smaller quantization.".to_owned(),
        );
    }
    if !a.offload {
        if has_gpu {
            r.push(
                "Only partial GPU offload is likely; generation may lean heavily on the CPU.".to_owned(),
            );
        } else {
            r.push(
                "No compatible GPU was detected, so generation will run primarily on the CPU.".to_owned(),
            );
        }
    }
    assert(text::views(r@) =~= cautions_for(*a, has_gpu));
    r
}

/// The verdict on a model.
pub fn decision(a: &Assessment) -> (r: String)
    ensures
        r@ == decision_on(*a),
{
    if a.fit.is_less(Double::ratio(4, 10)) {
        "Not recommended for this computer.".to_owned()
    } else if a.quality.is_less(a.speed) {
        "Best for fast, low-friction local chat.".to_owned()
    } else if Double::ratio(82, 100).is_less(a.quality) {
        "Best quality option that still appears to fit.".to_owned()
    } else {
        "Balanced recommendation for this computer.".to_owned()
    }
}

/// What an assessment says of a candidate.
pub fn recommend(candidate: &Candidate, hardware: &HardwareProfile, a: &Assessment) -> (r:
    Recommendation)
    ensures
        r@ == recommendation_of(candidate@, *hardware, *a),
{
    let vram = graphics_memory(hardware);
    let gpu_layers: i32 = if a.offload {
        999
    } else if Double::whole(4).is_at_most(vram) {
        20
    } else {
        0
    };
    let r = Recommendation {
        repo_id: candidate.repo_id.clone(),
        filename: candidate.filename.clone(),
        quantization: match &candidate.quantization {
            Some(q) => Some(q.clone()),
            None => None,
        },
        parameter_billions: candidate.parameter_billions,
        size_gb: candidate.size_gb,
        score: round3(a.score),
        fit_score: round3(a.fit),
        quality_score: round3(a.quality),
        speed_score: round3(a.speed),
        safety_margin_score: round3(a.safety),
        estimated_memory_gb: round3(a.memory),
        gpu_layers,
        context_size: hardware::recommended_context_size(hardware),
        decision: decision(a),
        reasons: reasons(a, vram, &candidate.quantization),
        cautions: cautions(a, hardware.gpu_name.is_some()),
        download_url: download_url(candidate.repo_id.as_str(), candidate.filename.as_str()),
    };
    assert(r@ =~= recommendation_of(candidate@, *hardware, *a));
    r
}

/// What a candidate comes to for a machine and a request.
pub open spec fn scored(
    candidate: CandidateView,
    hardware: HardwareProfile,
    task: Seq<char>,
    preference: Double,
    download_log: Double,
) -> RecommendationView {
    recommendation_of(
        candidate,
        hardware,
        assessment_of(
            candidate,
            text::lowercase(description(candidate)),
            hardware,
            task,
            preference,
            download_log,
        ),
    )
}

/// What a candidate comes to for a machine, as a request asks for it.
pub open spec fn answer_to(
    candidate: CandidateView,
    hardware: HardwareProfile,
    request: RecommendationRequest,
    download_log: Double,
) -> RecommendationView {
    scored(
        candidate,
        hardware,
        request.task@,
        request.speed_quality_preference,
        download_log,
    )
}

/// Judges a candidate for a machine and a request, given the decimal logarithm of its
/// counted downloads.
pub fn score_candidate(
    candidate: &Candidate,
    hardware: &HardwareProfile,
    request: &RecommendationRequest,
    download_log: Double,
) -> (r: Recommendation)
    ensures
        r@ == answer_to(candidate@, *hardware, *request, download_log),
        text::is_ascii(description(candidate@)) ==> r@ == recommendation_of(
            candidate@,
            *hardware,
            assessment_of(
                candidate@,
                text::plain_lowercase(description(candidate@)),
                *hardware,
                request.task@,
                request.speed_quality_preference,
                download_log,
            ),
        ),
{
    let lower = describe(candidate);
    let a = assess(candidate, lower.as_str(), hardware, request, download_log);
    recommend(candidate, hardware, &a)
}

} // verus!
