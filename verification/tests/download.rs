//! The steps by which a model file is downloaded.

use myailocalmodel::download::{
    access_token, model_folder, progress, sanitize, Download, DownloadAction, DownloadEvent,
    DownloadRequest, DownloadStage,
};

fn request() -> DownloadRequest {
    DownloadRequest {
        repo_id: "Qwen/Qwen-7B".into(),
        filename: "q.gguf".into(),
        url: "https://example.org/q.gguf".into(),
    }
}

#[test]
fn folder_names_have_no_separators() {
    assert_eq!(sanitize("Qwen/Qwen-7B"), "Qwen_Qwen-7B");
    assert_eq!(sanitize("a\\b:c/d"), "a_b_c_d");
    assert_eq!(sanitize("plain"), "plain");
    assert_eq!(sanitize(&sanitize("a/b:c")), sanitize("a/b:c"));
    assert_eq!(model_folder("a/b"), vec!["models".to_string(), "a_b".to_string()]);
}

#[test]
fn first_token_counts() {
    let some = |t: &str| Some(t.to_string());
    assert_eq!(access_token(some("a"), some("b")), some("a"));
    assert_eq!(access_token(None, some("b")), some("b"));
    assert_eq!(access_token(None, None), None);
}

#[test]
fn progress_shows_the_part_done() {
    let p = progress(&request(), 3, Some(7));
    assert_eq!(p.repo_id, "Qwen/Qwen-7B");
    assert_eq!(p.filename, "q.gguf");
    assert_eq!(p.downloaded, 3);
    assert_eq!(p.total, Some(7));
    assert_eq!(p.percent.map(|x| f64::from_bits(x.bits)), Some(3.0 / 7.0));
    assert_eq!(
        progress(&request(), 7, Some(7)).percent.map(|x| f64::from_bits(x.bits)),
        Some(1.0)
    );
    assert!(progress(&request(), 7, None).percent.is_none());
    assert!(progress(&request(), 0, Some(0))
        .percent
        .map(|x| f64::from_bits(x.bits))
        .unwrap()
        .is_nan());
}

#[test]
fn download_takes_its_steps() {
    let mut d = Download::download_model(request(), false);
    assert_eq!(d.stage, DownloadStage::DataFolder);
    match d.advance(DownloadEvent::Resolved("/data".into())) {
        DownloadAction::CreateFolder(segments) => {
            assert_eq!(segments, vec!["models".to_string(), "Qwen_Qwen-7B".to_string()])
        }
        _ => panic!(),
    }
    match d.advance(DownloadEvent::Done) {
        DownloadAction::Contact(url) => assert_eq!(url, "https://example.org/q.gguf"),
        _ => panic!(),
    }
    assert!(matches!(d.advance(DownloadEvent::Done), DownloadAction::CheckAnswer));
    match d.advance(DownloadEvent::Accepted(Some(30))) {
        DownloadAction::CreateFile(steps) => {
            assert_eq!(steps, vec!["models", "Qwen_Qwen-7B", "q.partial"])
        }
        _ => panic!(),
    }
    assert!(matches!(d.advance(DownloadEvent::Done), DownloadAction::Receive(None)));
    let mut sum = 0;
    for length in [10, 0, 20] {
        sum += length;
        assert!(matches!(d.advance(DownloadEvent::Received(length)), DownloadAction::Write));
        match d.advance(DownloadEvent::Done) {
            DownloadAction::Receive(Some(p)) => {
                assert_eq!(p.downloaded, sum);
                assert_eq!(p.total, Some(30));
                assert_eq!(p.percent.map(|x| f64::from_bits(x.bits)), Some(sum as f64 / 30.0));
            }
            _ => panic!(),
        }
    }
    assert!(matches!(d.advance(DownloadEvent::Ended), DownloadAction::Flush));
    match d.advance(DownloadEvent::Done) {
        DownloadAction::Rename(from, to) => {
            assert_eq!(from, vec!["models", "Qwen_Qwen-7B", "q.partial"]);
            assert_eq!(to, vec!["models", "Qwen_Qwen-7B", "q.gguf"]);
        }
        _ => panic!(),
    }
    match d.advance(DownloadEvent::Done) {
        DownloadAction::Finish(result) => {
            assert_eq!(result.path, "/data/models/Qwen_Qwen-7B/q.gguf");
            assert_eq!(result.bytes, 30);
        }
        _ => panic!(),
    }
    assert_eq!(d.stage, DownloadStage::Over);
}

fn failure_at(stage: DownloadStage) -> String {
    let mut d = Download::download_model(request(), false);
    let events = vec![
        DownloadEvent::Resolved("/data".into()),
        DownloadEvent::Done,
        DownloadEvent::Done,
        DownloadEvent::Accepted(None),
        DownloadEvent::Done,
        DownloadEvent::Received(4),
        DownloadEvent::Done,
        DownloadEvent::Ended,
        DownloadEvent::Done,
    ];
    for event in events {
        if d.stage == stage {
            break;
        }
        d.advance(event);
    }
    assert_eq!(d.stage, stage);
    match d.advance(DownloadEvent::Failed("why".into())) {
        DownloadAction::Fail(message) => {
            assert_eq!(d.stage, DownloadStage::Over);
            message
        }
        _ => panic!(),
    }
}

#[test]
fn failed_download_is_told() {
    assert_eq!(
        failure_at(DownloadStage::DataFolder),
        "Could not resolve application data folder: why"
    );
    assert_eq!(failure_at(DownloadStage::FolderCreation), "Could not create model folder: why");
    assert_eq!(failure_at(DownloadStage::Contact), "Could not contact Hugging Face: why");
    assert_eq!(failure_at(DownloadStage::Answer), "Hugging Face rejected the download: why");
    assert_eq!(failure_at(DownloadStage::FileCreation), "Could not create the model file: why");
    assert_eq!(failure_at(DownloadStage::Chunk), "Download interrupted: why");
    assert_eq!(failure_at(DownloadStage::Write), "Could not write the downloaded model: why");
    assert_eq!(failure_at(DownloadStage::Flush), "Could not finish the model file: why");
    assert_eq!(failure_at(DownloadStage::Rename), "Could not finalize the model file: why");
}

#[test]
fn file_outside_the_data_folder_is_refused() {
    for filename in ["/etc/q.gguf", "../../../q.gguf", "a/../../../../q.gguf", "../.."] {
        let mut outside = request();
        outside.filename = filename.into();
        let mut d = Download::download_model(outside, false);
        match d.advance(DownloadEvent::Resolved("/data".into())) {
            DownloadAction::Fail(message) => assert_eq!(
                message,
                format!("The model file would lie outside the application data folder: {filename}")
            ),
            _ => panic!(),
        }
        assert_eq!(d.stage, DownloadStage::Over);
    }
}
