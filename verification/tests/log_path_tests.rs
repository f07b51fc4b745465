use hashline::config::default_log_path;
use std::path::PathBuf;

fn components(p: &PathBuf) -> Vec<String> {
    p.iter().map(|c| c.to_string_lossy().to_string()).collect()
}

#[test]
fn default_log_path_is_under_hashline_home_dir() {
    let parts = default_log_path(components(&PathBuf::from("/tmp/test-home")));
    let path: PathBuf = parts.iter().collect();
    assert_eq!(path, PathBuf::from("/tmp/test-home/.hashline/hashline.log"));
}

#[test]
fn default_log_path_appends_two_components() {
    let parts = default_log_path(vec!["home".to_string(), "me".to_string()]);
    assert_eq!(parts, vec!["home", "me", ".hashline", "hashline.log"]);
}
