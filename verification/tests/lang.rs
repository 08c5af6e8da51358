use qtcloud_code_cli::lang::{
    parse_rust, DartParser, GoParser, LanguageParser, RustParser, TsxParser, TypeScriptParser,
};

#[test]
fn dart_test_language_name() {
    let parser = DartParser::new().unwrap();
    assert_eq!(parser.language_name(), "Dart");
}

#[test]
fn dart_test_file_extensions() {
    let parser = DartParser::new().unwrap();
    assert_eq!(parser.file_extensions(), &["dart"]);
}

#[test]
fn dart_test_parse_valid() {
    let mut parser = DartParser::new().unwrap();
    let result = parser.parse("f.dart", "void f() {}").unwrap();
    assert_eq!(result.file_path, "f.dart");
}

#[test]
fn dart_test_parse_empty() {
    let mut parser = DartParser::new().unwrap();
    assert!(parser.parse("f.dart", "").is_some());
}

#[test]
fn go_test_language_name() {
    let parser = GoParser::new().unwrap();
    assert_eq!(parser.language_name(), "Go");
}

#[test]
fn go_test_file_extensions() {
    let parser = GoParser::new().unwrap();
    assert_eq!(parser.file_extensions(), &["go"]);
}

#[test]
fn go_test_parse_valid() {
    let mut parser = GoParser::new().unwrap();
    let result = parser.parse("f.go", "package main").unwrap();
    assert_eq!(result.file_path, "f.go");
}

#[test]
fn go_test_parse_empty() {
    let mut parser = GoParser::new().unwrap();
    assert!(parser.parse("f.go", "").is_some());
}

#[test]
fn rust_and_typescript_parsers() {
    let mut rust = RustParser::new().unwrap();
    assert_eq!(rust.language_name(), "Rust");
    assert_eq!(rust.file_extensions(), &["rs"]);
    let r = rust.parse("m.rs", "fn main() {}").unwrap();
    assert_eq!(r.source, "fn main() {}");
    assert!(r.tree.nodes.len() > 1);
    let mut ts = TypeScriptParser::new().unwrap();
    assert_eq!(ts.language_name(), "TypeScript");
    assert!(ts.parse("a.ts", "let x: number = 1;").is_some());
    let mut tsx = TsxParser::new().unwrap();
    assert!(tsx.parse("a.tsx", "const a = <div />;").is_some());
}

#[test]
fn syntax_tree_texts_and_lines() {
    let t = parse_rust("fn f() {\n    let x = 1;\n}").unwrap();
    assert_eq!(t.nodes[0].kind, "source_file");
    assert_eq!(t.nodes[0].start_row, 0);
    let f = t.nodes.iter().position(|n| n.kind == "function_item").unwrap();
    assert_eq!(t.nodes[f].text, Some("fn f() {\n    let x = 1;\n}".to_string()));
    let l = t.nodes.iter().position(|n| n.kind == "let_declaration").unwrap();
    assert_eq!(t.nodes[l].start_row, 1);
    assert_eq!(t.nodes[l].start_col, 4);
}
