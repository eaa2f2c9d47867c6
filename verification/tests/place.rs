//! Where the file of a model lies.

use myailocalmodel::download::sanitize;
use myailocalmodel::place::{model_file, model_path, model_steps, partial_file, partial_name};
use std::path::Path;

fn is_inside(repo_id: &str, filename: &str, windows: bool) -> bool {
    model_file(repo_id, filename, windows).is_ok()
}

#[test]
fn plain_name_lies_in_the_folder_of_its_repository() {
    assert_eq!(model_file("a/b", "q.gguf", false).unwrap(), vec!["models", "a_b", "q.gguf"]);
    assert_eq!(
        model_file("a/b", "sub/q.gguf", false).unwrap(),
        vec!["models", "a_b", "sub", "q.gguf"]
    );
    assert_eq!(
        model_file("a/b", "sub\\q.gguf", false).unwrap(),
        vec!["models", "a_b", "sub\\q.gguf"]
    );
    assert_eq!(
        model_file("a/b", "sub\\q.gguf", true).unwrap(),
        vec!["models", "a_b", "sub", "q.gguf"]
    );
    assert!(is_inside("..", "q.gguf", false));
}

#[test]
fn name_that_leads_out_is_refused() {
    assert_eq!(
        model_file("a/b", "../../../q.gguf", false).unwrap_err(),
        "The model file would lie outside the application data folder: ../../../q.gguf"
    );
    assert!(!is_inside("a/b", "/q.gguf", false));
    assert!(is_inside("a/b", "../q.gguf", false));
    assert!(is_inside("a/b", "../../q.gguf", false));
    assert!(!is_inside("a/b", "../..", false));
    assert!(!is_inside("a/b", "../../../data/q.gguf", false));
    assert!(!is_inside("..", "../q.gguf", false));
    assert!(is_inside("a/b", "x/../q.gguf", false));
    assert!(is_inside("a/b", "..\\..\\..\\q.gguf", false));
    assert!(!is_inside("a/b", "..\\..\\..\\q.gguf", true));
    assert!(is_inside("a/b", "C:q.gguf", false));
    assert!(!is_inside("a/b", "C:q.gguf", true));
    assert!(is_inside("a/b", "x/C:q.gguf", true));
    assert!(!is_inside("a/b", "\\\\host\\q.gguf", true));
    assert!(is_inside("a/b", "...", false));
}

#[test]
fn extension_gives_way_to_partial() {
    assert_eq!(partial_name("q.gguf"), "q.partial");
    assert_eq!(partial_name("q.Q4_K.gguf"), "q.Q4_K.partial");
    assert_eq!(partial_name("q"), "q.partial");
    assert_eq!(partial_name("q."), "q.partial");
    assert_eq!(partial_name(".q"), ".q.partial");
    assert_eq!(partial_name("..."), "...partial");
    let steps = model_steps("a/b", "sub/q.gguf", false);
    assert_eq!(partial_file(&steps), vec!["models", "a_b", "sub", "q.partial"]);
}

/// File names of every kind.
fn names() -> Vec<String> {
    let mut all = Vec::new();
    let pieces = ["a", ".", "..", "", "x.gguf", ".h", "y.", "...", "b.c.d"];
    for first in pieces {
        all.push(first.to_string());
        for second in pieces {
            all.push(format!("{first}/{second}"));
            for third in pieces {
                all.push(format!("{first}/{second}/{third}"));
            }
        }
    }
    all
}

#[test]
fn paths_agree_with_the_standard_library() {
    for data in ["/data", "/data/", "/", "/a b/c"] {
        for repo in ["a/b", "", "..", "x"] {
            for name in names() {
                if name.starts_with('/') {
                    continue;
                }
                let folder = Path::new(data).join("models").join(sanitize(repo));
                let target = folder.join(&name);
                assert_eq!(
                    model_path(data, repo, &name, false),
                    target.to_string_lossy(),
                    "{data} {repo} {name}"
                );
                let steps = model_steps(repo, &name, false);
                assert_eq!(Path::new(data).join(steps.join("/")), target);
                let partial = Path::new(data).join(partial_file(&steps).join("/"));
                assert_eq!(partial, target.with_extension("partial"), "{data} {repo} {name}");
            }
        }
    }
}

#[test]
fn paths_of_windows_have_its_separators() {
    assert_eq!(model_path("C:\\data", "a/b", "q.gguf", true), "C:\\data\\models\\a_b\\q.gguf");
    assert_eq!(model_path("C:\\", "a/b", "s/q.gguf", true), "C:\\models\\a_b\\s/q.gguf");
    assert_eq!(model_path("C:", "a", "q", true), "C:models\\a\\q");
    assert_eq!(model_path("", "a", "q", false), "models/a/q");
}

#[test]
fn drive_inside_a_name_is_a_step_like_others() {
    assert_eq!(model_file("r", "a/C:b", true).unwrap(), vec!["models", "r", "a", "C:b"]);
    assert_eq!(
        model_file("r", "C:b", true).unwrap_err(),
        "The model file would lie outside the application data folder: C:b"
    );
}

#[test]
fn paths_below_a_verbatim_folder_have_no_idle_steps() {
    let path = |data: &str, repo: &str, name: &str| model_path(data, repo, name, true);
    assert_eq!(path(r"\\?\C:\d", "o/r", "a/b.gguf"), r"\\?\C:\d\models\o_r\a\b.gguf");
    assert_eq!(path(r"\\?\C:\d", "o/r", "./a/../b.gguf"), r"\\?\C:\d\models\o_r\b.gguf");
    assert_eq!(path(r"\\?\C:\d", "o/r", "../b.gguf"), r"\\?\C:\d\models\b.gguf");
    assert_eq!(path(r"\\?\C:\d", "..", "b.gguf"), r"\\?\C:\d\b.gguf");
    assert_eq!(path(r"\\?\C:\d\", "", "b.gguf"), r"\\?\C:\d\models\b.gguf");
    assert_eq!(path(r"\\?\C:\", "r", "b.gguf"), r"\\?\C:\models\r\b.gguf");
    assert_eq!(path(r"\\?\C:\a\\b", "r", "c"), r"\\?\C:\a\b\models\r\c");
    assert_eq!(path(r"\\?\UNC\s\h\d", "r", "c"), r"\\?\UNC\s\h\d\models\r\c");
    assert_eq!(path(r"\\?\C:\d", "r", ""), r"\\?\C:\d\models\r\");
    assert_eq!(path(r"\\server\share", "r", "./c"), r"\\server\share\models\r\./c");
    assert_eq!(model_path(r"\\?\C:\d", "r", "./c", false), r"\\?\C:\d/models/r/./c");
}
