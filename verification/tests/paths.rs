use qtcloud_code_cli::paths::{path_components, strip_prefix_components};

#[test]
fn leading_dot_is_a_component() {
    assert_eq!(path_components("./p/x.rs"), vec![".", "p", "x.rs"]);
    assert_eq!(path_components("p/./x.rs"), vec!["p", "x.rs"]);
    assert_eq!(path_components("/./p"), vec!["/", "p"]);
    assert_eq!(path_components("."), vec!["."]);
}

#[test]
fn strip_prefix_keeps_a_leading_dot_apart() {
    assert!(strip_prefix_components("p/x.rs", "./p").is_none());
    assert_eq!(strip_prefix_components("./p/x.rs", "./p"), Some(vec!["x.rs".to_string()]));
    assert_eq!(strip_prefix_components("p/x.rs", "p"), Some(vec!["x.rs".to_string()]));
}
