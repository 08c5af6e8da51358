use qtcloud_code_cli::refactor::rename::{
    build_symbol_table, rename_symbol, RefLocation, Symbol, SymbolKind, SymbolTable,
};
use qtcloud_code_cli::refactor::safety::{
    dry_run, patch_content, rollback_content, OperationLog, Patch,
};
use qtcloud_code_cli::refactor::transform::{byte_for_line, find_extract_boundary, is_safe_boundary};

fn patch(start: usize, end: usize, old: &str, new: &str) -> Patch {
    Patch {
        finding_id: "t".into(),
        file: "f.rs".into(),
        start_line: start,
        end_line: end,
        old_text: old.into(),
        new_text: new.into(),
    }
}

fn rust_tree(code: &str) -> tree_sitter::Tree {
    let mut parser = tree_sitter::Parser::new();
    parser.set_language(&tree_sitter_rust::LANGUAGE.into()).unwrap();
    parser.parse(code, None).unwrap()
}

#[test]
fn test_dry_run_format() {
    let p = Patch {
        finding_id: "test".into(),
        file: "f.rs".into(),
        start_line: 1,
        end_line: 1,
        old_text: "old".into(),
        new_text: "new".into(),
    };
    let out = dry_run(&p);
    assert!(out.contains("--- a/f.rs"));
    assert!(out.contains("+++ b/f.rs"));
    assert!(out.contains("-old"));
    assert!(out.contains("+new"));
}

#[test]
fn dry_run_exact_text() {
    let out = dry_run(&patch(3, 5, "a", "b"));
    assert_eq!(out, "--- a/f.rs\n+++ b/f.rs\n@@ -3,3 +3,3 @@\n-a\n+b\n");
}

#[test]
fn test_operation_log() {
    let mut log = OperationLog::new();
    assert!(log.patches.is_empty());
    let p = Patch {
        finding_id: "t".into(),
        file: "f.rs".into(),
        start_line: 1,
        end_line: 1,
        old_text: "a".into(),
        new_text: "b".into(),
    };
    log.record(p, true, false);
    assert_eq!(log.patches.len(), 1);
    assert!(log.patches[0].applied);
    assert!(!log.patches[0].verified);
}

#[test]
fn test_apply_patch_line_out_of_range() {
    let r = patch_content(&patch(10, 10, "x", "y"), "line1");
    assert!(r.is_err());
    assert_eq!(r.unwrap_err(), "行号超出范围");
}

#[test]
fn test_apply_patch_text_mismatch() {
    let r = patch_content(&patch(1, 1, "wrong", "new"), "line1\nline2\n");
    assert!(r.is_err());
    assert_eq!(r.unwrap_err(), "内容不匹配: 期望 'wrong', 实际 'line1'");
}

#[test]
fn test_apply_patch_success() {
    let r = patch_content(&patch(1, 1, "old line", "new line"), "old line\nother\n");
    assert!(r.is_ok());
    let content = r.unwrap();
    assert!(content.contains("new line"));
    assert_eq!(content, "new line\n// MODIFIED\nother\n");
}

#[test]
fn patch_over_several_lines() {
    let r = patch_content(&patch(2, 3, "b\nc", "X"), "a\nb\nc\nd").unwrap();
    assert_eq!(r, "a\nX\n// MODIFIED\nd");
}

#[test]
fn test_rollback() {
    let content = rollback_content("// MODIFIED\nother\n");
    assert!(content.contains("// ROLLED BACK"));
    assert_eq!(content, "// ROLLED BACK\nother\n");
}

#[test]
fn rollback_twice_is_rollback_once() {
    let samples = ["", "x", "// MODIFIED", "a\n// MODIFIED extra\nb\n// MODIFIED", "// ROLLED BACK\n"];
    for s in samples {
        let once = rollback_content(s);
        assert_eq!(rollback_content(&once), once);
        assert!(once.split('\n').all(|l| !l.starts_with("// MODIFIED")));
    }
}

#[test]
fn test_byte_for_line() {
    assert_eq!(byte_for_line("abc\ndef\nghi", 1), 0);
    assert_eq!(byte_for_line("abc\ndef\nghi", 2), 4);
    assert_eq!(byte_for_line("abc\ndef\nghi", 4), 11);
}

#[test]
fn test_byte_for_line_beyond_end() {
    assert_eq!(byte_for_line("abc", 999), 3);
}

#[test]
fn test_byte_for_line_empty() {
    assert_eq!(byte_for_line("", 1), 0);
}

#[test]
fn byte_for_line_counts_utf8_bytes() {
    assert_eq!(byte_for_line("é\nx", 2), 3);
    assert_eq!(byte_for_line("abc", 0), 0);
}

#[test]
fn test_find_extract_boundary_inline_stmt() {
    let code = "fn f() { let x = 1; x }";
    let tree = rust_tree(code);
    if let Some(candidate) = find_extract_boundary(code, &tree, 1) {
        assert!(candidate.code.trim().starts_with("fn"));
    }
}

#[test]
fn test_find_extract_boundary_invalid_line() {
    let code = "fn f() {}";
    let tree = rust_tree(code);
    let _r = find_extract_boundary(code, &tree, 999);
}

#[test]
fn safe_boundaries() {
    assert!(is_safe_boundary("block"));
    assert!(is_safe_boundary("match_expression"));
    assert!(!is_safe_boundary("let_declaration"));
}

#[test]
fn rename_collects_each_location_once() {
    let table = SymbolTable {
        symbols: vec![
            Symbol {
                name: "x".into(),
                kind: SymbolKind::Variable,
                def_file: "a.rs".into(),
                def_line: 2,
                refs: vec![
                    RefLocation { file: "a.rs".into(), line: 3 },
                    RefLocation { file: "a.rs".into(), line: 2 },
                ],
            },
            Symbol {
                name: "y".into(),
                kind: SymbolKind::Variable,
                def_file: "a.rs".into(),
                def_line: 9,
                refs: vec![],
            },
        ],
    };
    let r = rename_symbol(&table, "x", "z");
    assert_eq!(
        r,
        vec![("a.rs:2".to_string(), "z".to_string()), ("a.rs:3".to_string(), "z".to_string())]
    );
    assert!(rename_symbol(&table, "nope", "z").is_empty());
}

#[test]
fn symbol_table_of_functions() {
    let code = "fn used() {}\nfn main() { used(); }";
    let tree = rust_tree(code);
    let table = build_symbol_table(code, &tree, "m.rs");
    let names: Vec<&str> = table.symbols.iter().map(|s| s.name.as_str()).collect();
    assert!(names.contains(&"used"));
    assert!(names.contains(&"main"));
}

fn extract_with_tree_sitter(code: &str, tree: &tree_sitter::Tree, line: usize) -> Option<(usize, usize, String)> {
    let root = tree.root_node();
    let byte = byte_for_line(code, line);
    let node = root.descendant_for_byte_range(byte, byte)?;
    let mut e = node;
    while let Some(p) = e.parent() {
        if is_safe_boundary(p.kind()) {
            break;
        }
        e = p;
    }
    Some((e.start_position().row + 1, e.end_position().row + 1, e.utf8_text(code.as_bytes()).ok()?.to_string()))
}

#[test]
fn extract_boundary_agrees_with_tree_sitter_descent() {
    let sources = [
        "fn f() {\n    let x = 1;\n    let y = x + 2;\n}\n",
        "fn g(a: i32) -> i32 {\n    if a > 0 {\n        a\n    } else {\n        let b = -a;\n        b\n    }\n}\n",
        "fn h(v: Option<i32>) {\n    match v {\n        Some(x) => {\n            println!(\"{}\", x);\n        }\n        None => {}\n    }\n    let c = |y: i32| y + 1;\n    unsafe { let p = 0; }\n}\n\n// tail\n",
        "",
        "struct S;\nimpl S {\n    fn m(&self) -> u8 { 3 }\n}\n",
    ];
    for code in &sources {
        let tree = rust_tree(code);
        let lines = code.lines().count() + 2;
        for line in 1..=lines {
            let ours = find_extract_boundary(code, &tree, line).map(|c| (c.start_line, c.end_line, c.code));
            assert_eq!(ours, extract_with_tree_sitter(code, &tree, line), "line {} of {:?}", line, code);
        }
    }
}
