use qtcloud_code_cli::detect::dead_code::{check_dead_code, walk_all};
use qtcloud_code_cli::detect::long_function::{classify as lf, LongFunctionDetector};
use qtcloud_code_cli::detect::missing_tests::{
    check_missing_tests, external_test_candidates, has_inline_tests, is_test_file, SourceFile,
};
use qtcloud_code_cli::detect::unsafe_block::{classify, UnsafeBlockDetector};
use qtcloud_code_cli::detect::unused_variable::{
    compiler_check_wanted, findings_from_output, parse_compiler_message,
};
use qtcloud_code_cli::detect::{Detector, Severity};
use qtcloud_code_cli::lang::parse_rust;

fn rust_tree(code: &str) -> tree_sitter::Tree {
    let mut parser = tree_sitter::Parser::new();
    parser.set_language(&tree_sitter_rust::LANGUAGE.into()).unwrap();
    parser.parse(code, None).unwrap()
}

#[test]
fn test_is_test_file_rust() {
    assert!(is_test_file("tests/review.rs"));
    assert!(!is_test_file("src/main.rs"));
}

#[test]
fn test_is_test_file_go() {
    assert!(is_test_file("src/main_test.go"));
    assert!(!is_test_file("src/main.go"));
}

#[test]
fn test_is_test_file_python() {
    assert!(is_test_file("tests/test_main.py"));
    assert!(!is_test_file("src/main.py"));
}

#[test]
fn is_test_file_other_languages() {
    assert!(is_test_file("lib/widget_test.dart"));
    assert!(is_test_file("web/app.test.ts"));
    assert!(!is_test_file("tests/helper.py"));
    assert!(!is_test_file("src/tests.rs"));
}

#[test]
fn test_has_inline_tests_rust_found() {
    assert!(has_inline_tests("rs", "#[cfg(test)]\nmod tests {}"));
}

#[test]
fn test_has_inline_tests_rust_missing() {
    assert!(!has_inline_tests("rs", "pub fn f() {}"));
}

#[test]
fn test_has_inline_tests_python_found() {
    assert!(has_inline_tests("py", "if __name__ == '__main__':\n    pass"));
}

#[test]
fn has_inline_tests_other_languages() {
    assert!(has_inline_tests("go", "func TestX(t *testing.T) {}"));
    assert!(has_inline_tests("dart", "void main() { test('x', () {}); }"));
    assert!(!has_inline_tests("dart", "void main() {}"));
    assert!(has_inline_tests("ts", "describe('x', () => {})"));
    assert!(!has_inline_tests("txt", "#[cfg(test)]"));
}

#[test]
fn test_has_external_test_file_exists() {
    let c = external_test_candidates("/proj", "src/lib.rs");
    assert_eq!(c, vec!["/proj/tests/lib.rs"]);
}

#[test]
fn external_test_candidates_by_language() {
    assert_eq!(external_test_candidates("/p", "app/main.py"), vec!["/p/tests/test_main.py"]);
    assert_eq!(external_test_candidates("/p", "pkg/x.go"), vec!["/p/pkg/x_test.go"]);
    assert_eq!(external_test_candidates("/p", "lib/w.dart"), vec!["/p/test/w_test.dart"]);
    assert_eq!(
        external_test_candidates("/p", "web/a.ts"),
        vec!["/p/web/a.test.ts", "/p/web/__tests__/a.test.ts"]
    );
    assert!(external_test_candidates("/p", "notes.txt").is_empty());
}

fn source(path: &str, content: &str, has_external_test: bool) -> SourceFile {
    SourceFile { path: path.to_string(), content: Some(content.to_string()), has_external_test }
}

#[test]
fn test_check_missing_tests_finds_gaps() {
    let files = vec![
        source("/proj/src/lib.rs", "pub fn f() {}", false),
        source("/proj/src/main.rs", "fn main() {}", false),
    ];
    let findings = check_missing_tests("/proj", &files);
    assert_eq!(findings.len(), 2);
    assert_eq!(findings[0].severity, Severity::Must);
    assert_eq!(findings[0].rule_id, "missing-tests");
}

#[test]
fn test_check_missing_tests_inline_ok() {
    let files = vec![source("/proj/src/lib.rs", "#[cfg(test)]\nmod tests {}", false)];
    let findings = check_missing_tests("/proj", &files);
    assert!(findings.is_empty());
}

#[test]
fn test_check_missing_tests_external_ok() {
    let files = vec![source("/proj/src/lib.rs", "pub fn f() {}", true)];
    let findings = check_missing_tests("/proj", &files);
    assert!(findings.is_empty());
}

#[test]
fn check_missing_tests_message_and_skips() {
    let files = vec![
        source("/proj/src/lib.rs", "pub fn f() {}", false),
        source("/proj/src/lib.rs", "pub fn f() {}", false),
        source("/proj/target/gen.rs", "", false),
        source("/proj/README.md", "", false),
        source("/elsewhere/x.rs", "", false),
        source("/proj/tests/it.rs", "", false),
    ];
    let findings = check_missing_tests("/proj", &files);
    assert_eq!(findings.len(), 1);
    assert_eq!(findings[0].file_path, "/proj/src/lib.rs");
    assert_eq!(findings[0].line, 1);
    assert_eq!(findings[0].column, 1);
    assert_eq!(findings[0].message, "`src/lib.rs` 缺少对应测试");
}

#[test]
fn test_small_unsafe_no_finding() {
    let source = "unsafe { f(1); }";
    let tree = parse_rust(source).unwrap();
    let findings = UnsafeBlockDetector.detect(source, &tree, "f.rs");
    assert!(findings.is_empty());
}

#[test]
fn test_wide_unsafe_should() {
    let stmts = (0..6).map(|i| format!("  f({});", i)).collect::<Vec<_>>().join("\n");
    let source = format!("unsafe {{\n{}\n}}", stmts);
    let tree = parse_rust(&source).unwrap();
    let findings = UnsafeBlockDetector.detect(&source, &tree, "f.rs");
    assert!(!findings.is_empty());
    assert_eq!(findings[0].severity, Severity::Should);
}

#[test]
fn wide_unsafe_finding_fields() {
    let stmts = (0..9).map(|i| format!("  f({});", i)).collect::<Vec<_>>().join("\n");
    let source = format!("fn g() {{\n    unsafe {{\n{}\n}}\n}}", stmts);
    let tree = parse_rust(&source).unwrap();
    let findings = UnsafeBlockDetector.detect(&source, &tree, "f.rs");
    assert_eq!(findings.len(), 1);
    assert_eq!(findings[0].severity, Severity::Must);
    assert_eq!(findings[0].line, 2);
    assert_eq!(findings[0].column, 5);
    assert_eq!(findings[0].rule_id, "rust-wide-unsafe");
    assert_eq!(findings[0].message, "unsafe 块包含 9 条语句");
    assert_eq!(findings[0].file_path, "f.rs");
}

#[test]
fn test_classify() {
    assert_eq!(classify(2), None);
    assert_eq!(classify(3), None);
    assert_eq!(classify(4), Some(Severity::May));
    assert_eq!(classify(5), Some(Severity::May));
    assert_eq!(classify(6), Some(Severity::Should));
    assert_eq!(classify(8), Some(Severity::Should));
    assert_eq!(classify(9), Some(Severity::Must));
}

fn rank(s: Option<Severity>) -> u8 {
    match s {
        None => 0,
        Some(Severity::May) => 1,
        Some(Severity::Should) => 2,
        Some(Severity::Must) => 3,
    }
}

#[test]
fn severity_never_drops_as_measure_grows() {
    for n in 0..120usize {
        assert!(rank(classify(n)) <= rank(classify(n + 1)));
        assert!(
            rank(lf(n)) <= rank(lf(n + 1))
        );
    }
}

#[test]
fn long_function_thresholds_and_message() {
    assert_eq!(lf(30), None);
    assert_eq!(lf(31), Some(Severity::May));
    assert_eq!(lf(51), Some(Severity::Should));
    assert_eq!(lf(81), Some(Severity::Must));
    let body = (0..40).map(|i| format!("    let a{} = {};", i, i)).collect::<Vec<_>>().join("\n");
    let source = format!("fn big() {{\n{}\n}}", body);
    let tree = parse_rust(&source).unwrap();
    let findings = LongFunctionDetector.detect(&source, &tree, "a.rs");
    assert_eq!(findings.len(), 1);
    assert_eq!(findings[0].severity, Severity::May);
    assert_eq!(findings[0].line, 1);
    assert_eq!(findings[0].column, 1);
    assert_eq!(findings[0].rule_id, "long-function");
    assert_eq!(findings[0].message, "函数 `big` 共 41 行");
}

#[test]
fn test_dead_code_detects_unused() {
    let s = "fn used() {} fn unused() {} fn main() { used(); }";
    let t = rust_tree(s);
    let dead = check_dead_code(s, &t);
    assert_eq!(dead.len(), 1);
    assert_eq!(dead[0].name, "unused");
}

#[test]
fn test_dead_code_empty() {
    let t = rust_tree("");
    assert!(check_dead_code("", &t).is_empty());
}

#[test]
fn dead_code_test_walk_all_terminates() {
    let t = parse_rust("fn a() { fn b() {} }").unwrap();
    let count = walk_all(&t).len();
    assert!(count > 0 && count < 100);
}

#[test]
fn test_parse_unused_variable_warning() {
    let json = r#"{"reason":"compiler-message","message":{"level":"warning","code":{"code":"unused_variables"},"message":"unused variable: `x`","spans":[{"file_name":"src/lib.rs","line_start":5,"column_start":9}]}}"#;
    let finding = parse_compiler_message(json, "/project");
    assert!(finding.is_some());
    let f = finding.unwrap();
    assert_eq!(f.file_path, "/project/src/lib.rs");
    assert_eq!(f.line, 5);
    assert_eq!(f.column, 9);
    assert_eq!(f.severity, Severity::Should);
    assert_eq!(f.rule_id, "unused-variable");
    assert_eq!(f.message, "unused variable: `x`");
}

#[test]
fn test_parse_unused_mut_warning() {
    let json = r#"{"reason":"compiler-message","message":{"level":"warning","code":{"code":"unused_mut"},"message":"variable does not need to be mutable","spans":[{"file_name":"src/main.rs","line_start":3,"column_start":9}]}}"#;
    let finding = parse_compiler_message(json, "/p");
    assert!(finding.is_some());
    assert_eq!(finding.unwrap().rule_id, "unused-variable");
}

#[test]
fn test_parse_irrelevant_warning_skipped() {
    let json = r#"{"reason":"compiler-message","message":{"level":"warning","code":{"code":"dead_code"},"message":"function is never used","spans":[{"file_name":"src/lib.rs","line_start":1,"column_start":1}]}}"#;
    let finding = parse_compiler_message(json, "/p");
    assert!(finding.is_none());
}

#[test]
fn test_parse_error_level_skipped() {
    let json = r#"{"reason":"compiler-message","message":{"level":"error","code":{"code":"E0308"},"message":"mismatched types","spans":[{"file_name":"src/lib.rs","line_start":1,"column_start":1}]}}"#;
    let finding = parse_compiler_message(json, "/p");
    assert!(finding.is_none());
}

#[test]
fn test_parse_non_json_skipped() {
    let finding = parse_compiler_message("not json", "/p");
    assert!(finding.is_none());
}

#[test]
fn test_parse_non_compiler_message_skipped() {
    let json = r#"{"reason":"build-finished","success":true}"#;
    let finding = parse_compiler_message(json, "/p");
    assert!(finding.is_none());
}

#[test]
fn compiler_message_edge_cases() {
    let no_column = r#"{"reason":"compiler-message","message":{"level":"warning","code":{"code":"unused_mut"},"message":"m","spans":[{"file_name":"/abs/a.rs","line_start":2}]}}"#;
    let f = parse_compiler_message(no_column, "/p").unwrap();
    assert_eq!(f.column, 1);
    assert_eq!(f.file_path, "/abs/a.rs");
    let no_span = r#"{"reason":"compiler-message","message":{"level":"warning","code":{"code":"unused_mut"},"message":"m","spans":[]}}"#;
    assert!(parse_compiler_message(no_span, "/p").is_none());
    let broken = r#"{"reason": "#;
    assert!(parse_compiler_message(broken, "/p").is_none());
}

#[test]
fn compiler_output_lines() {
    let msg = r#"{"reason":"compiler-message","message":{"level":"warning","code":{"code":"unused_variables"},"message":"unused variable: `y`","spans":[{"file_name":"src/a.rs","line_start":7,"column_start":3}]}}"#;
    let out = format!("{}\n{}\r\nnoise\n", r#"{"reason":"compiler-artifact"}"#, msg);
    let out = out.as_str();
    let findings = findings_from_output(out, "/root/");
    assert_eq!(findings.len(), 1);
    assert_eq!(findings[0].file_path, "/root/src/a.rs");
    assert_eq!(findings[0].line, 7);
    assert!(compiler_check_wanted(&vec!["unused-variable".to_string()]));
    assert!(!compiler_check_wanted(&vec!["missing-tests".to_string()]));
}

#[test]
fn test_has_external_test_file_missing() {
    let dir = tempfile::tempdir().unwrap();
    let root = dir.path().to_str().unwrap();
    let candidates = external_test_candidates(root, "src/lib.rs");
    assert_eq!(candidates.len(), 1);
    assert!(!candidates.iter().any(|c| std::path::Path::new(c).exists()));
}
