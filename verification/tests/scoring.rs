//! What a candidate comes to for a machine and a request.

use myailocalmodel::catalog::{extract_quantization, Candidate};
use myailocalmodel::double::Double;
use myailocalmodel::hardware::{recommended_context_size, HardwareProfile};
use myailocalmodel::scoring::{
    counted_downloads, decision, description_suits, download_url, escape, estimate_memory,
    family_quality, fit_score, popularity, precision, quality_by_family, quality_score, round3,
    safety_margin, score_candidate, speed_score, task_matches, Assessment, Precision,
    RecommendationRequest,
};

fn double(x: f64) -> Double {
    Double { bits: x.to_bits() }
}

fn float(x: Double) -> f64 {
    f64::from_bits(x.bits)
}

fn hardware() -> HardwareProfile {
    HardwareProfile {
        os_name: "Windows".into(),
        arch: "x86_64".into(),
        cpu_cores: 12,
        total_ram_gb: double(32.0),
        available_ram_gb: double(20.0),
        disk_free_gb: double(500.0),
        gpu_name: Some("NVIDIA RTX 4070".into()),
        vram_gb: Some(double(12.0)),
        notes: vec![],
    }
}

fn candidate(name: &str, file: &str, params: f64, size: f64) -> Candidate {
    Candidate {
        repo_id: name.into(),
        filename: file.into(),
        quantization: extract_quantization(file),
        parameter_billions: Some(double(params)),
        size_gb: Some(double(size)),
        downloads: 100000,
        likes: 200,
        tags: vec!["gguf".into(), "instruct".into()],
    }
}

fn request(preference: f64) -> RecommendationRequest {
    RecommendationRequest {
        task: "general".into(),
        query: "GGUF instruct".into(),
        speed_quality_preference: double(preference),
        limit: 5,
    }
}

fn log_of(downloads: u64) -> Double {
    double((downloads as f64).log10())
}

#[test]
fn practical_q4_model_scores_as_a_good_fit() {
    let rec = score_candidate(
        &candidate("Qwen/Qwen-7B-GGUF", "qwen-7b.Q4_K_M.gguf", 7.0, 4.8),
        &hardware(),
        &request(0.5),
        log_of(100000),
    );
    assert!(float(rec.fit_score) > 0.7);
    assert!(rec.gpu_layers > 0);
}

#[test]
fn oversized_model_is_rejected() {
    let rec = score_candidate(
        &candidate("Meta/Llama-70B-GGUF", "llama-70b.Q8_0.gguf", 70.0, 74.0),
        &hardware(),
        &request(0.9),
        log_of(100000),
    );
    assert!(float(rec.fit_score) < 0.4);
    assert!(rec.decision.contains("Not recommended"));
}

#[test]
fn context_defaults_scale_with_ram() {
    assert_eq!(recommended_context_size(&hardware()), 8192);
}

#[test]
fn practical_model_is_judged_in_full() {
    let rec = score_candidate(
        &candidate("Qwen/Qwen-7B-GGUF", "qwen-7b.Q4_K_M.gguf", 7.0, 4.8),
        &hardware(),
        &request(0.5),
        log_of(100000),
    );
    assert_eq!(rec.repo_id, "Qwen/Qwen-7B-GGUF");
    assert_eq!(rec.filename, "qwen-7b.Q4_K_M.gguf");
    assert_eq!(rec.quantization.as_deref(), Some("Q4_K"));
    assert_eq!(rec.parameter_billions.map(float), Some(7.0));
    assert_eq!(rec.size_gb.map(float), Some(4.8));
    assert_eq!(float(rec.score), 0.998);
    assert_eq!(float(rec.fit_score), 1.0);
    assert_eq!(float(rec.quality_score), 0.82);
    assert_eq!(float(rec.speed_score), 0.918);
    assert_eq!(float(rec.safety_margin_score), 0.994);
    assert_eq!(float(rec.estimated_memory_gb), 6.75);
    assert_eq!(rec.gpu_layers, 999);
    assert_eq!(rec.context_size, 8192);
    assert_eq!(rec.decision, "Best for fast, low-friction local chat.");
    assert_eq!(
        rec.reasons,
        vec![
            "Estimated loaded footprint is about 6.8 GB including runtime overhead.".to_string(),
            "The model fits within the memory currently available on this computer.".to_string(),
            "The detected 12.0 GB of VRAM should support substantial GPU acceleration.".to_string(),
            "Q4_K is an appropriate speed, memory, and quality tradeoff for this hardware.".to_string(),
        ]
    );
    assert!(rec.cautions.is_empty());
    assert_eq!(
        rec.download_url,
        "https://huggingface.co/Qwen/Qwen-7B-GGUF/resolve/main/qwen-7b.Q4_K_M.gguf"
    );
}

#[test]
fn oversized_model_is_judged_in_full() {
    let rec = score_candidate(
        &candidate("Meta/Llama-70B-GGUF", "llama 70b#1.Q8_0.gguf", 70.0, 74.0),
        &hardware(),
        &request(0.9),
        log_of(100000),
    );
    assert_eq!(float(rec.score), 0.431);
    assert_eq!(float(rec.fit_score), 0.08);
    assert_eq!(float(rec.quality_score), 0.902);
    assert_eq!(float(rec.speed_score), 0.11);
    assert_eq!(float(rec.safety_margin_score), 0.0);
    assert_eq!(float(rec.estimated_memory_gb), 93.25);
    assert_eq!(rec.gpu_layers, 20);
    assert_eq!(rec.decision, "Not recommended for this computer.");
    assert_eq!(
        rec.reasons,
        vec![
            "Estimated loaded footprint is about 93.2 GB including runtime overhead.".to_string(),
            "Q8_0 is an appropriate speed, memory, and quality tradeoff for this hardware.".to_string(),
        ]
    );
    assert_eq!(
        rec.cautions,
        vec![
            "Memory headroom is tight. Close other applications or choose a smaller quantization.".to_string(),
            "Only partial GPU offload is likely; generation may lean heavily on the CPU.".to_string(),
        ]
    );
    assert_eq!(
        rec.download_url,
        "https://huggingface.co/Meta/Llama-70B-GGUF/resolve/main/llama%2070b%231.Q8_0.gguf"
    );
}

#[test]
fn machine_without_adapter_is_warned() {
    let mut bare = hardware();
    bare.gpu_name = None;
    bare.vram_gb = None;
    let rec = score_candidate(
        &candidate("a/b", "c.gguf", 7.0, 4.8),
        &bare,
        &request(0.5),
        log_of(1),
    );
    assert_eq!(rec.gpu_layers, 0);
    assert_eq!(
        rec.cautions,
        vec!["No compatible GPU was detected, so generation will run primarily on the CPU.".to_string()]
    );
    assert_eq!(rec.reasons.len(), 2);
}

/// The score as the machine's own arithmetic gives it.
fn expected_score(
    c: &Candidate,
    family: f64,
    rate: f64,
    suited: bool,
    h: &HardwareProfile,
    preference: f64,
    log: f64,
) -> f64 {
    let memory = float(estimate_memory(c));
    let total = float(h.total_ram_gb);
    let effective = float(h.available_ram_gb).min(total * 0.72).max(1.0);
    let fit: f64 = if memory <= effective * 0.75 {
        1.0
    } else if memory <= effective {
        0.72
    } else if memory <= total * 0.85 {
        0.38
    } else {
        0.08
    };
    let params = c.parameter_billions.map(float);
    let quality = (family * 0.82 + (params.unwrap_or(3.0) / 14.0).min(1.0) * 0.18).min(1.0);
    let vram = h.vram_gb.map(float).unwrap_or(0.0);
    let offload = vram >= memory * 0.72;
    let penalty = (params.unwrap_or(7.0) / 20.0).min(1.0) * 0.35;
    let speed = (rate - penalty + if offload { 0.20 } else { 0.0 }).clamp(0.05, 1.0);
    let safety = (((effective - memory) / effective) * 1.5).clamp(0.0, 1.0);
    let popularity = (log / 6.0 + c.likes.min(500) as f64 / 3000.0).min(1.0);
    let preference = preference.clamp(0.0, 1.0);
    let bonus = if suited { 0.06 } else { 0.0 };
    let score = (fit * 0.37
        + quality * (0.12 + preference * 0.18)
        + speed * (0.25 - preference * 0.12)
        + safety * 0.15
        + popularity * 0.08
        + bonus)
        .clamp(0.0, 1.0);
    (score * 1000.0).round() / 1000.0
}

#[test]
fn scores_agree_with_the_machine() {
    let rates = [("Q2_K", 0.95), ("Q3", 0.90), ("Q4_0", 0.84), ("Q5", 0.72), ("Q6", 0.62), ("Q8", 0.46), ("F16", 0.25), ("Q7", 0.70)];
    for (k, (quantization, rate)) in rates.iter().enumerate() {
        for params in [0.5, 1.5, 3.0, 7.0, 13.0, 34.0, 70.0] {
            for size in [0.3, 2.2, 4.8, 11.3, 40.0] {
                for preference in [-1.0, 0.0, 0.35, 1.0, 2.0] {
                    let mut c = candidate("some/model", "file.gguf", params, size);
                    c.quantization = Some(quantization.to_string());
                    c.likes = 77 * k as u64;
                    let mut h = hardware();
                    h.available_ram_gb = double(3.0 + 2.5 * k as f64);
                    h.vram_gb = Some(double(k as f64));
                    let log = 0.37 * params;
                    let rec = score_candidate(&c, &h, &request(preference), double(log));
                    let expected = expected_score(&c, 0.72, *rate, true, &h, preference, log);
                    assert_eq!(float(rec.score), expected, "{quantization} {params} {size} {preference}");
                }
            }
        }
    }
}

#[test]
fn precision_is_read_from_the_quantization() {
    let of = |q: &str| precision(&Some(q.to_string()));
    assert_eq!(of("Q2_K"), Precision::Two);
    assert_eq!(of("Q3"), Precision::Three);
    assert_eq!(of("Q4_K"), Precision::Four);
    assert_eq!(of("Q5_1"), Precision::Five);
    assert_eq!(of("Q6_K"), Precision::Six);
    assert_eq!(of("Q8_0"), Precision::Eight);
    assert_eq!(of("F16"), Precision::Half);
    assert_eq!(of("Q7"), Precision::Other);
    assert_eq!(of("F16X"), Precision::Other);
    assert_eq!(precision(&None), Precision::Four);
}

#[test]
fn memory_is_estimated() {
    let mut c = candidate("a/b", "c.gguf", 7.0, 4.8);
    assert_eq!(float(estimate_memory(&c)), 4.8 * 1.25 + 0.75);
    c.size_gb = None;
    for (q, rate) in [("Q2", 0.32), ("Q3", 0.42), ("Q4", 0.55), ("Q5", 0.68), ("Q6", 0.80), ("Q8", 1.05), ("F16", 2.05), ("Q7", 0.55)] {
        c.quantization = Some(q.to_string());
        assert_eq!(float(estimate_memory(&c)), 7.0 * rate + 1.25);
    }
    c.quantization = None;
    c.parameter_billions = None;
    assert_eq!(float(estimate_memory(&c)), 7.0 * 0.55 + 1.25);
}

#[test]
fn families_have_their_quality() {
    assert_eq!(family_quality("a deepseek qwen"), 91);
    assert_eq!(family_quality("qwen llama"), 89);
    assert_eq!(family_quality("llama"), 88);
    assert_eq!(family_quality("mistral"), 87);
    assert_eq!(family_quality("gemma"), 82);
    assert_eq!(family_quality("phi"), 78);
    assert_eq!(family_quality("other"), 72);
    assert_eq!(float(quality_by_family(91, double(20.0))), (0.91f64 * 0.82 + 0.18).min(1.0));
    assert_eq!(float(quality_by_family(72, double(7.0))), 0.72 * 0.82 + 7.0 / 14.0 * 0.18);
}

#[test]
fn quality_goes_by_names_and_tags_in_any_case() {
    let mut c = candidate("X/MISTRAL", "f.gguf", 14.0, 1.0);
    assert_eq!(float(quality_score(&c)), 0.87 * 0.82 + 0.18);
    c.tags = vec!["DeepSeek".to_string()];
    assert_eq!(float(quality_score(&c)), 0.91 * 0.82 + 0.18);
    c.parameter_billions = None;
    assert_eq!(float(quality_score(&c)), 0.91 * 0.82 + 3.0 / 14.0 * 0.18);
}

#[test]
fn tasks_are_suited_by_their_words() {
    assert!(description_suits("starcoder", "coding"));
    assert!(description_suits("code", "coding"));
    assert!(!description_suits("cod", "coding"));
    assert!(description_suits("story", "writing"));
    assert!(description_suits("llama", "writing"));
    assert!(description_suits("mistral", "writing"));
    assert!(!description_suits("qwen", "writing"));
    assert!(description_suits("reasoner", "research"));
    assert!(description_suits("qwen", "research"));
    assert!(description_suits("deepseek", "research"));
    assert!(!description_suits("llama", "research"));
    assert!(description_suits("instruct", "small-business"));
    assert!(description_suits("chat", "small-business"));
    assert!(!description_suits("base", "small-business"));
    assert!(description_suits("", "anything else"));
    assert!(task_matches(&candidate("a/CODER", "f.gguf", 1.0, 1.0), "coding"));
    assert!(!task_matches(&candidate("a/b", "f.gguf", 1.0, 1.0), "coding"));
    assert!(task_matches(&candidate("a/b", "f.gguf", 1.0, 1.0), "small-business"));
}

#[test]
fn fit_has_four_grades() {
    let h = hardware();
    assert_eq!(float(fit_score(double(15.0), &h)), 1.0);
    assert_eq!(float(fit_score(double(15.1), &h)), 0.72);
    assert_eq!(float(fit_score(double(20.0), &h)), 0.72);
    assert_eq!(float(fit_score(double(20.1), &h)), 0.38);
    assert_eq!(float(fit_score(double(27.2), &h)), 0.38);
    assert_eq!(float(fit_score(double(27.3), &h)), 0.08);
    assert_eq!(float(fit_score(double(f64::NAN), &h)), 0.08);
}

#[test]
fn tiny_machines_count_as_a_gigabyte() {
    let mut h = hardware();
    h.available_ram_gb = double(0.2);
    assert_eq!(float(fit_score(double(0.75), &h)), 1.0);
    assert_eq!(float(fit_score(double(1.0), &h)), 0.72);
    assert_eq!(float(safety_margin(double(0.5), &h)), 0.75);
}

#[test]
fn speed_is_held_between_bounds() {
    let mut c = candidate("a/b", "f.gguf", 40.0, 1.0);
    c.quantization = Some("F16".to_string());
    assert_eq!(float(speed_score(&c, false)), 0.05);
    c.quantization = Some("Q2".to_string());
    c.parameter_billions = Some(double(0.5));
    assert_eq!(float(speed_score(&c, true)), 1.0);
    assert_eq!(float(speed_score(&c, false)), 0.95 - 0.025 * 0.35 + 0.0);
    c.parameter_billions = None;
    assert_eq!(float(speed_score(&c, false)), 0.95 - 0.35 * 0.35 + 0.0);
}

#[test]
fn safety_margin_shrinks_with_memory() {
    let h = hardware();
    assert_eq!(float(safety_margin(double(1.0), &h)), 1.0);
    assert_eq!(float(safety_margin(double(10.0), &h)), 0.75);
    assert_eq!(float(safety_margin(double(20.0), &h)), 0.0);
    assert_eq!(float(safety_margin(double(90.0), &h)), 0.0);
}

#[test]
fn popularity_is_capped() {
    assert_eq!(float(popularity(double(3.0), 300)), 3.0 / 6.0 + 300.0 / 3000.0);
    assert_eq!(float(popularity(double(0.0), 10000)), 500.0 / 3000.0);
    assert_eq!(float(popularity(double(9.0), 0)), 1.0);
    let mut c = candidate("a/b", "f.gguf", 1.0, 1.0);
    assert_eq!(counted_downloads(&c), 100000);
    c.downloads = 0;
    assert_eq!(counted_downloads(&c), 1);
}

#[test]
fn numbers_are_rounded_to_thousandths() {
    assert_eq!(float(round3(double(0.12349))), 0.123);
    assert_eq!(float(round3(double(0.1235))), (0.1235f64 * 1000.0).round() / 1000.0);
    for k in 0..1001 {
        let x = k as f64 / 1000.0;
        assert_eq!(float(round3(double(x))), x);
    }
}

#[test]
fn file_names_are_escaped() {
    assert_eq!(escape("a b#c.gguf"), "a%20b%23c.gguf");
    assert_eq!(escape("plain.gguf"), "plain.gguf");
    assert_eq!(escape(""), "");
    assert_eq!(download_url("o/r", "x y"), "https://huggingface.co/o/r/resolve/main/x%20y");
}

fn assessed(fit: f64, quality: f64, speed: f64) -> Assessment {
    Assessment {
        memory: double(1.0),
        fit: double(fit),
        quality: double(quality),
        speed: double(speed),
        safety: double(0.5),
        score: double(0.5),
        offload: false,
    }
}

#[test]
fn verdicts_follow_the_scores() {
    assert_eq!(decision(&assessed(0.38, 0.5, 0.9)), "Not recommended for this computer.");
    assert_eq!(decision(&assessed(0.72, 0.5, 0.9)), "Best for fast, low-friction local chat.");
    assert_eq!(decision(&assessed(0.72, 0.9, 0.5)), "Best quality option that still appears to fit.");
    assert_eq!(decision(&assessed(0.72, 0.82, 0.82)), "Balanced recommendation for this computer.");
}

#[test]
fn smaller_file_scores_no_worse() {
    let mut last = 2.0;
    for k in 0..80 {
        let c = candidate("a/b", "f.Q4.gguf", 7.0, k as f64 / 2.0);
        let score = float(score_candidate(&c, &hardware(), &request(0.4), log_of(10)).score);
        assert!(score <= last);
        assert!((0.0..=1.0).contains(&score));
        last = score;
    }
}

#[test]
fn liked_model_scores_no_worse() {
    let mut last = 0.0;
    for k in 0..60 {
        let mut c = candidate("a/b", "f.Q4.gguf", 7.0, 9.0);
        c.likes = 10 * k;
        let score = float(score_candidate(&c, &hardware(), &request(0.4), log_of(1 + 100 * k)).score);
        assert!(last <= score);
        last = score;
    }
}

#[test]
fn slider_to_quality_never_hurts_a_model_of_quality() {
    for params in [1.0, 7.0, 13.0, 34.0, 70.0] {
        for size in [0.5, 4.8, 12.0, 40.0] {
            for q in ["Q2", "Q4", "Q6", "Q8", "F16"] {
                let mut c = candidate("qwen/model", "f.gguf", params, size);
                c.quantization = Some(q.to_string());
                let at = |p: f64| score_candidate(&c, &hardware(), &request(p), log_of(1000));
                let (speed, quality) = (at(0.0), at(1.0));
                if float(speed.quality_score) >= float(speed.speed_score) {
                    assert!(float(speed.score) <= float(quality.score), "{params} {size} {q}");
                }
                for p in [-3.0, -0.0, 0.3, 1.0, 9.0] {
                    let mut other = at(p);
                    if p <= 0.0 {
                        assert_eq!(other.score.bits, speed.score.bits);
                    }
                    if p >= 1.0 {
                        assert_eq!(other.score.bits, quality.score.bits);
                    }
                    other.score = speed.score;
                    assert_eq!(format!("{other:?}"), format!("{speed:?}"));
                }
            }
        }
    }
}

#[test]
fn suiting_the_task_adds_its_bonus() {
    for size in [0.5, 4.8, 12.0, 19.0, 40.0] {
        for preference in [0.0, 0.5, 1.0] {
            let c = candidate("llama/model", "f.Q4.gguf", 7.0, size);
            let mut suited = request(preference);
            suited.task = "writing".into();
            let mut unsuited = request(preference);
            unsuited.task = "coding".into();
            let r = score_candidate(&c, &hardware(), &suited, log_of(1000));
            let mut s = score_candidate(&c, &hardware(), &unsuited, log_of(1000));
            assert!(float(s.score) <= float(r.score));
            assert!((float(r.score) - (float(s.score) + 0.06).min(1.0)).abs() <= 0.002);
            s.score = r.score;
            assert_eq!(format!("{r:?}"), format!("{s:?}"));
            suited.query = "other words".into();
            suited.limit = 1;
            let again = score_candidate(&c, &hardware(), &suited, log_of(1000));
            assert_eq!(format!("{r:?}"), format!("{again:?}"));
        }
    }
}

#[test]
fn more_memory_in_the_machine_never_fits_worse() {
    let mut last = 0.0;
    for k in 0..60 {
        let mut h = hardware();
        h.available_ram_gb = double(k as f64);
        h.total_ram_gb = double(10.0 + k as f64);
        let fit = float(fit_score(double(18.5), &h));
        assert!(last <= fit);
        last = fit;
    }
    assert_eq!(last, 1.0);
}
