use qtcloud_code_cli::scan::project_root_of;
use qtcloud_code_cli::lang::RustParser;
use qtcloud_code_cli::scan::{has_listed_extension, rule_listing, scan_source};

#[test]
fn listed_extensions() {
    assert!(has_listed_extension("src/a.rs", &["rs"]));
    assert!(has_listed_extension("/x/y/z.tar.rs", &["go", "rs"]));
    assert!(!has_listed_extension("src/a.txt", &["rs"]));
    assert!(!has_listed_extension(".rs", &["rs"]));
    assert!(!has_listed_extension("src/", &["rs"]));
    assert!(!has_listed_extension("Makefile", &["rs"]));
}

#[test]
fn rules_listing() {
    assert_eq!(
        rule_listing(),
        "可用检测规则:\n  rust-wide-unsafe — unsafe 块包含过多语句\n  long-function — 函数体过长\n"
    );
}

#[test]
fn scan_one_file() {
    let mut parser = RustParser::new().unwrap();
    let stmts = (0..6).map(|i| format!("  f({});", i)).collect::<Vec<_>>().join("\n");
    let body = (0..35).map(|i| format!("    let a{} = {};", i, i)).collect::<Vec<_>>().join("\n");
    let source = format!("fn big() {{\n{}\nunsafe {{\n{}\n}}\n}}", body, stmts);
    let findings = scan_source(&mut parser, "lib.rs", &source).unwrap();
    let rules: Vec<&str> = findings.iter().map(|f| f.rule_id.as_str()).collect();
    assert_eq!(rules, vec!["rust-wide-unsafe", "long-function"]);
    assert!(findings.iter().all(|f| f.file_path == "lib.rs"));
}

#[test]
fn project_root_is_the_nearest_with_a_manifest() {
    assert_eq!(project_root_of(&vec![false, true, true]), Some(1));
    assert_eq!(project_root_of(&vec![true, false]), Some(0));
    assert_eq!(project_root_of(&vec![false, false]), None);
    assert_eq!(project_root_of(&vec![]), None);
}
