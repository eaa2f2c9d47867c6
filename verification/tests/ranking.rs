//! The order in which recommendations are shown.

use myailocalmodel::catalog::Candidate;
use myailocalmodel::double::Double;
use myailocalmodel::hardware::HardwareProfile;
use myailocalmodel::ranking::recommend_models;
use myailocalmodel::scoring::{Recommendation, RecommendationRequest};

fn double(x: f64) -> Double {
    Double { bits: x.to_bits() }
}

fn float(x: Double) -> f64 {
    f64::from_bits(x.bits)
}

fn hardware() -> HardwareProfile {
    HardwareProfile {
        os_name: "Windows".into(),
        arch: "x86_64".into(),
        cpu_cores: 12,
        total_ram_gb: double(32.0),
        available_ram_gb: double(20.0),
        disk_free_gb: double(500.0),
        gpu_name: None,
        vram_gb: None,
        notes: vec![],
    }
}

fn request(limit: usize) -> RecommendationRequest {
    RecommendationRequest {
        task: "general".into(),
        query: "GGUF".into(),
        speed_quality_preference: double(0.5),
        limit,
    }
}

fn candidates(sizes: &[f64]) -> Vec<Candidate> {
    sizes
        .iter()
        .enumerate()
        .map(|(i, size)| Candidate {
            repo_id: format!("repo/{i}"),
            filename: "f.Q4.gguf".into(),
            quantization: Some("Q4".into()),
            parameter_billions: Some(double(7.0)),
            size_gb: Some(double(*size)),
            downloads: 10,
            likes: 0,
            tags: vec![],
        })
        .collect()
}

fn ranked(sizes: &[f64], limit: usize) -> Vec<Recommendation> {
    let logs = vec![double(1.0); sizes.len()];
    recommend_models(&candidates(sizes), &logs, &hardware(), &request(limit))
}

fn names(list: &[Recommendation]) -> Vec<String> {
    list.iter().map(|r| r.repo_id.clone()).collect()
}

#[test]
fn best_score_comes_first() {
    let list = ranked(&[40.0, 2.0, 17.0, 9.0], 10);
    assert_eq!(names(&list), vec!["repo/1", "repo/3", "repo/2", "repo/0"]);
    for pair in list.windows(2) {
        assert!(float(pair[1].score) <= float(pair[0].score));
    }
}

#[test]
fn equal_scores_keep_their_order() {
    let list = ranked(&[9.0, 2.0, 9.0, 2.0, 9.0], 10);
    assert_eq!(names(&list), vec!["repo/1", "repo/3", "repo/0", "repo/2", "repo/4"]);
}

#[test]
fn order_agrees_with_a_stable_sort() {
    let sizes: Vec<f64> = (0..30).map(|k| ((k * 7919) % 23) as f64 * 1.5).collect();
    let list = ranked(&sizes, 30);
    let logs = vec![double(1.0); 1];
    let mut expected: Vec<Recommendation> = candidates(&sizes)
        .into_iter()
        .map(|c| recommend_models(&vec![c], &logs, &hardware(), &request(1)).remove(0))
        .collect();
    expected.sort_by(|a, b| float(b.score).partial_cmp(&float(a.score)).unwrap());
    assert_eq!(names(&list), names(&expected));
}

#[test]
fn limit_is_held_between_one_and_thirty() {
    let sizes: Vec<f64> = (0..40).map(|k| k as f64).collect();
    assert_eq!(ranked(&sizes, 0).len(), 1);
    assert_eq!(ranked(&sizes, 1).len(), 1);
    assert_eq!(ranked(&sizes, 5).len(), 5);
    assert_eq!(ranked(&sizes, 30).len(), 30);
    assert_eq!(ranked(&sizes, 1000).len(), 30);
    assert_eq!(ranked(&[1.0, 2.0], 1000).len(), 2);
    assert_eq!(ranked(&[], 5).len(), 0);
}
