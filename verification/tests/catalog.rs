//! Model files as the hub lists them.

use myailocalmodel::catalog::{
    candidates_from_search, describe_search, extract_params, extract_quantization, names_model,
    search_hint, search_hugging_face, search_url, HfModel, HfSibling, SearchReply,
};
use myailocalmodel::double::Double;
use regex::Regex;

fn float(x: Double) -> f64 {
    f64::from_bits(x.bits)
}

fn file(name: Option<&str>, size: Option<u64>) -> HfSibling {
    HfSibling { rfilename: name.map(|n| n.to_string()), size }
}

fn model(model_id: Option<&str>, id: Option<&str>, files: Vec<HfSibling>) -> HfModel {
    HfModel {
        model_id: model_id.map(|n| n.to_string()),
        id: id.map(|n| n.to_string()),
        downloads: Some(1234),
        likes: None,
        tags: Some(vec!["gguf".to_string(), "text".to_string()]),
        siblings: Some(files),
    }
}

#[test]
fn quantization_is_found_in_upper_case() {
    assert_eq!(extract_quantization("qwen-7b.Q4_K_M.gguf").as_deref(), Some("Q4_K"));
    assert_eq!(extract_quantization("model.q5_0.gguf").as_deref(), Some("Q5_0"));
    assert_eq!(extract_quantization("model-q8.gguf").as_deref(), Some("Q8"));
    assert_eq!(extract_quantization("model.f16.gguf").as_deref(), Some("F16"));
    assert_eq!(extract_quantization("model-Q1_K.gguf"), None);
    assert_eq!(extract_quantization("model-Q9.gguf"), None);
    assert_eq!(extract_quantization("model.gguf"), None);
    assert_eq!(extract_quantization("F16-then-Q2_K.gguf").as_deref(), Some("F16"));
    assert_eq!(extract_quantization("Q4_.gguf").as_deref(), Some("Q4"));
    assert_eq!(extract_quantization("q3_\u{17f}\u{212a}9x.gguf").as_deref(), Some("Q3_S\u{212a}9X"));
    assert_eq!(extract_quantization(""), None);
}

#[test]
fn parameters_are_found_in_words() {
    assert_eq!(extract_params("Qwen/Qwen-7B-GGUF/qwen-7b.Q4_K_M.gguf").map(float), Some(7.0));
    assert_eq!(extract_params("x/model-1.5b-chat.gguf").map(float), Some(1.5));
    assert_eq!(extract_params("70b").map(float), Some(70.0));
    assert_eq!(extract_params("x/0.5B").map(float), Some(0.5));
    assert_eq!(extract_params("x/8x7b.gguf").map(float), None);
    assert_eq!(extract_params("x/7bit-model.gguf").map(float), None);
    assert_eq!(extract_params("x/v3.8b.gguf").map(float), Some(8.0));
    assert_eq!(extract_params("x/3.8b.gguf").map(float), Some(3.8));
    assert_eq!(extract_params("x/1.2.3b").map(float), Some(2.3));
    assert!(extract_params("a-b-7 b").is_none());
    assert_eq!(extract_params("-7b-13b").map(float), Some(7.0));
    assert!(extract_params("").is_none());
}

/// Every text of up to four characters out of those that matter to the patterns.
fn short_texts(alphabet: &[char]) -> Vec<String> {
    let mut all = vec![String::new()];
    let mut start = 0;
    for _ in 0..4 {
        let end = all.len();
        for i in start..end {
            for c in alphabet {
                let mut longer = all[i].clone();
                longer.push(*c);
                all.push(longer);
            }
        }
        start = end;
    }
    all
}

#[test]
fn quantization_is_the_first_group_of_its_pattern() {
    let pattern = Regex::new(r"(?i)(Q[2-8](?:_[A-Z0-9]+)?|F16)").unwrap();
    for t in short_texts(&['Q', 'f', '1', '6', '_', 'k', '-']) {
        let expected = pattern.captures(&t).map(|c| c[1].to_uppercase());
        assert_eq!(extract_quantization(&t), expected, "{t}");
    }
}

#[test]
fn parameters_are_the_first_group_of_their_pattern() {
    let pattern = Regex::new(r"(?i)(?:^|[-_/.])([0-9]+(?:\.[0-9]+)?)b(?:[-_/.]|$)").unwrap();
    for t in short_texts(&['1', '2', '.', 'b', 'B', '-', 'x']) {
        let expected = pattern.captures(&t).map(|c| c[1].parse::<f64>().unwrap());
        assert_eq!(extract_params(&t).map(float), expected, "{t}");
    }
}

#[test]
fn words_of_a_search_follow_the_task() {
    assert_eq!(search_hint("coding", "q"), "GGUF coder instruct");
    assert_eq!(search_hint("writing", "q"), "GGUF instruct llama mistral");
    assert_eq!(search_hint("research", "q"), "GGUF reasoning instruct qwen deepseek");
    assert_eq!(search_hint("small-business", "q"), "GGUF instruct small");
    assert_eq!(search_hint("general", "my words"), "my words");
}

#[test]
fn address_of_a_search_holds_its_words() {
    assert_eq!(
        search_url("coding", "ignored").unwrap(),
        "https://huggingface.co/api/models?search=GGUF+coder+instruct&sort=downloads&direction=-1&limit=50&full=true"
    );
    assert_eq!(
        search_url("general", "a&b=\u{e9} #1").unwrap(),
        "https://huggingface.co/api/models?search=a%26b%3D%C3%A9+%231&sort=downloads&direction=-1&limit=50&full=true"
    );
    assert_eq!(
        search_url("general", "").unwrap(),
        "https://huggingface.co/api/models?search=&sort=downloads&direction=-1&limit=50&full=true"
    );
}

#[test]
fn failed_address_is_told() {
    assert_eq!(
        describe_search(Err("no host".to_string())),
        Err("Could not build the Hugging Face search: no host".to_string())
    );
    assert_eq!(describe_search(Ok("x".to_string())), Ok("x".to_string()));
}

#[test]
fn model_files_are_told_from_others() {
    assert!(names_model("a.gguf"));
    assert!(!names_model("a.gguf.txt"));
    assert!(!names_model("a-mmproj-f16.gguf"));
    assert!(!names_model("tokenizer.gguf"));
    assert!(!names_model("gguf"));
}

#[test]
fn candidates_come_in_their_order() {
    let models = vec![
        model(
            Some("Qwen/Qwen2-7B-GGUF"),
            Some("other"),
            vec![
                file(Some("README.md"), Some(10)),
                file(Some("Qwen2-7B-Q4_K_M.GGUF"), Some(5_153_960_755)),
                file(None, None),
                file(Some("qwen2-7b-mmproj.gguf"), None),
                file(Some("qwen2-7b-f16.gguf"), None),
            ],
        ),
        model(None, None, vec![file(Some("lost.gguf"), None)]),
        model(None, Some("a/b"), vec![file(Some("c.gguf"), None)]),
        HfModel { model_id: Some("x/y".to_string()), id: None, downloads: None, likes: None, tags: None, siblings: None },
    ];
    let candidates = candidates_from_search(&models).unwrap();
    assert_eq!(candidates.len(), 3);
    assert_eq!(candidates[0].repo_id, "Qwen/Qwen2-7B-GGUF");
    assert_eq!(candidates[0].filename, "Qwen2-7B-Q4_K_M.GGUF");
    assert_eq!(candidates[0].quantization.as_deref(), Some("Q4_K"));
    assert_eq!(candidates[0].parameter_billions.map(float), Some(7.0));
    assert_eq!(candidates[0].size_gb.map(float), Some(4.8));
    assert_eq!(candidates[0].downloads, 1234);
    assert_eq!(candidates[0].likes, 0);
    assert_eq!(candidates[0].tags, vec!["gguf".to_string(), "text".to_string()]);
    assert_eq!(candidates[1].filename, "qwen2-7b-f16.gguf");
    assert_eq!(candidates[1].quantization.as_deref(), Some("F16"));
    assert!(candidates[1].size_gb.is_none());
    assert_eq!(candidates[2].repo_id, "a/b");
    assert!(candidates[2].quantization.is_none());
    assert!(candidates[2].parameter_billions.is_none());
}

#[test]
fn search_without_candidates_is_an_error() {
    let none = "No compatible GGUF model files were found. Try a broader search such as 'GGUF instruct'.";
    assert_eq!(candidates_from_search(&vec![]).unwrap_err(), none);
    let models = vec![model(Some("a/b"), None, vec![file(Some("x.bin"), None)])];
    assert_eq!(candidates_from_search(&models).unwrap_err(), none);
    assert_eq!(search_hugging_face(SearchReply::Listed(models)).unwrap_err(), none);
}

#[test]
fn failed_search_is_told() {
    assert_eq!(
        search_hugging_face(SearchReply::Unreachable("down".into())).unwrap_err(),
        "Hugging Face search failed: down"
    );
    assert_eq!(
        search_hugging_face(SearchReply::Rejected("403".into())).unwrap_err(),
        "Hugging Face rejected the search: 403"
    );
    assert_eq!(
        search_hugging_face(SearchReply::Unreadable("eof".into())).unwrap_err(),
        "Could not read the Hugging Face response: eof"
    );
    let listed = SearchReply::Listed(vec![model(Some("a/b"), None, vec![file(Some("c.gguf"), None)])]);
    assert_eq!(search_hugging_face(listed).unwrap().len(), 1);
}
