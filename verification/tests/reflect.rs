use qtcloud_code_cli::detect::dead_code::walk_all;
use qtcloud_code_cli::lang::parse_rust;
use qtcloud_code_cli::reflect::analysis::{build_call_graph, code_search, forward_slice, type_info};
use qtcloud_code_cli::reflect::dataflow::{extract_rhs, extract_upstream_vars, trace_variable};
use qtcloud_code_cli::reflect::slice::{backward_slice, cross_function_slice};
use qtcloud_code_cli::reflect::{sort_entries_by_line, SliceEntry};

fn rust_tree(code: &str) -> tree_sitter::Tree {
    let mut parser = tree_sitter::Parser::new();
    parser.set_language(&tree_sitter_rust::LANGUAGE.into()).unwrap();
    parser.parse(code, None).unwrap()
}

#[test]
fn slice_test_walk_all_terminates() {
    let cases = ["fn a() {}", "fn b() { fn c() {} }", "", "mod x; use y;"];
    for code in &cases {
        if let Some(tree) = parse_rust(code) {
            let count = walk_all(&tree).len();
            assert!(count > 0, "walk_all should visit at least root node");
            assert!(count < 1000, "walk_all should not loop infinitely (visited {})", count);
        }
    }
}

#[test]
fn test_backward_slice_empty_input() {
    let tree = rust_tree("");
    let result = backward_slice("", &tree, "f.rs", 1);
    assert!(result.is_empty());
}

#[test]
fn test_backward_slice_out_of_range_line() {
    let code = "fn f() { let x = 1; x }";
    let tree = rust_tree(code);
    let result = backward_slice(code, &tree, "f.rs", 999);
    assert!(result.is_empty(), "out-of-range line should return empty");
}

#[test]
fn test_backward_slice_basic() {
    let code = "fn f() { let x = 1; let y = x + 1; y }";
    let tree = rust_tree(code);
    let result = backward_slice(code, &tree, "f.rs", 1);
    assert!(!result.is_empty(), "should find at least the target line");
}

#[test]
fn test_backward_slice_traces_variable() {
    let code = "fn f() {\nlet x = 1;\nlet y = x + 1;\ny\n}";
    let tree = rust_tree(code);
    let result = backward_slice(code, &tree, "f.rs", 3);
    assert!(result.iter().any(|s| s.text.contains("let x")), "should trace from y back to x definition");
    assert!(result.iter().any(|s| s.text.contains("let y")), "should include the target statement");
}

#[test]
fn test_backward_slice_multiline_function() {
    let code = "fn f(items: &[i32]) -> i32 {\nlet mut sum = 0;\nfor item in items {\nlet v = *item;\nsum += v;\n}\nsum\n}";
    let tree = rust_tree(code);
    let result = backward_slice(code, &tree, "f.rs", 5);
    assert!(result.iter().any(|s| s.text.contains("let mut sum")), "should trace sum to its definition");
    assert!(result.iter().any(|s| s.text.contains("let v")), "should trace v to its definition");
}

#[test]
fn test_cross_function_slice_basic() {
    let code = "fn helper(x: i32) -> i32 {\nlet y = x + 1;\ny\n}\nfn main() {\nlet v = helper(1);\nlet z = v;\nz\n}";
    let tree = rust_tree(code);
    let _result = cross_function_slice(code, &tree, "f.rs", 6);
}

#[test]
fn test_backward_slice_traces_through_method_chain() {
    let code = "fn f() {\nlet raw = \"a,b,c\";\nlet parts: Vec<&str> = raw.split(',').collect();\nlet v = parts[2].trim();\n}";
    let tree = rust_tree(code);
    let result = backward_slice(code, &tree, "f.rs", 4);
    assert!(
        result.iter().any(|s| s.line == 2 && s.text.contains("raw")),
        "should trace from parts[2].trim() back to raw definition; got lines: {:?}",
        result.iter().map(|s| s.line).collect::<Vec<_>>()
    );
    assert!(
        result.iter().any(|s| s.line == 3 && s.text.contains("parts")),
        "should trace from parts[2].trim() back to parts definition; got lines: {:?}",
        result.iter().map(|s| s.line).collect::<Vec<_>>()
    );
}

#[test]
fn backward_slice_is_sorted_and_transitive() {
    let code = "fn f() {\nlet a = 1;\nlet b = a;\nlet c = b;\nlet d = 9;\nc\n}";
    let tree = rust_tree(code);
    let lines: Vec<usize> = backward_slice(code, &tree, "f.rs", 4).iter().map(|s| s.line).collect();
    assert_eq!(lines, vec![2, 3, 4]);
    let from_b: Vec<usize> = backward_slice(code, &tree, "f.rs", 3).iter().map(|s| s.line).collect();
    assert!(from_b.iter().all(|l| lines.contains(l)));
}

#[test]
fn cross_function_slice_follows_the_callee() {
    let code = "fn helper(x: i32) -> i32 {\nlet y = x + 1;\ny\n}\nfn main() {\nlet v = helper(1);\nlet z = v;\nz\n}";
    let tree = rust_tree(code);
    let result = cross_function_slice(code, &tree, "f.rs", 7);
    let lines: Vec<usize> = result.iter().map(|s| s.line).collect();
    assert!(lines.contains(&7));
    assert!(lines.contains(&6));
    let mut sorted = lines.clone();
    sorted.sort();
    assert_eq!(lines, sorted);
}

#[test]
fn sort_entries_is_stable_by_line() {
    let e = |l: usize, t: &str| SliceEntry { file: "f".into(), line: l, text: t.into() };
    let v = vec![e(3, "a"), e(1, "b"), e(3, "c"), e(2, "d")];
    let s = sort_entries_by_line(&v);
    let got: Vec<(usize, String)> = s.iter().map(|x| (x.line, x.text.clone())).collect();
    assert_eq!(
        got,
        vec![(1, "b".to_string()), (2, "d".to_string()), (3, "a".to_string()), (3, "c".to_string())]
    );
}

#[test]
fn dataflow_pieces() {
    assert_eq!(extract_rhs("let y = x + 1;"), "x + 1");
    assert_eq!(extract_rhs("y;"), "y;");
    let vars = extract_upstream_vars("price * qty + 1");
    assert!(vars.contains(&"price".to_string()));
    assert!(vars.contains(&"qty".to_string()));
}

#[test]
fn trace_variable_reaches_sources() {
    let code = "fn f() {\nlet a = 1;\nlet b = a + 2;\nlet c = b;\n}";
    let tree = rust_tree(code);
    let flow = trace_variable(code, &tree, 4, "c");
    let vars: Vec<&str> = flow.iter().map(|e| e.var.as_str()).collect();
    assert!(vars.contains(&"c"));
    assert!(vars.contains(&"b"));
    assert!(vars.contains(&"a"));
    let c = flow.iter().find(|e| e.var == "c").unwrap();
    assert_eq!(c.from, "b");
    assert_eq!(c.line, 4);
}

#[test]
fn forward_slice_finds_usages() {
    let code = "fn f() {\nlet a = 1;\nlet b = a + 2;\nlet c = 3;\n}";
    let tree = rust_tree(code);
    let usages: Vec<usize> = forward_slice(code, &tree, "f.rs", 2).iter().map(|s| s.line).collect();
    assert!(usages.contains(&3));
    assert!(!usages.contains(&4));
}

#[test]
fn call_graph_links_callers_and_callees() {
    let code = "fn a() { b(); }\nfn b() {}";
    let tree = rust_tree(code);
    let g = build_call_graph(code, &tree);
    let a = g.iter().find(|n| n.name == "a").unwrap();
    let b = g.iter().find(|n| n.name == "b").unwrap();
    assert_eq!(a.callees, vec!["b".to_string()]);
    assert_eq!(b.callers, vec!["a".to_string()]);
}

#[test]
fn code_search_and_type_info() {
    let code = "fn f() {\nlet x: i32 = 1;\nlet y = 2;\n}";
    let tree = rust_tree(code);
    let found = code_search(code, &tree, "let_declaration");
    assert_eq!(found.len(), 2);
    let types = type_info(code, &tree);
    let x = types.iter().find(|t| t.var == "x").unwrap();
    assert_eq!(x.type_annotation, Some("i32".to_string()));
}

#[test]
fn cross_function_slice_traces_the_callee_return() {
    let code = "fn helper(x: i32) -> i32 {\nlet y = x + 1;\nreturn y;\n}\nfn main() {\nlet v = helper(1);\nlet z = v;\nz\n}";
    let tree = rust_tree(code);
    let lines: Vec<usize> = cross_function_slice(code, &tree, "f.rs", 7).iter().map(|s| s.line).collect();
    assert_eq!(lines, vec![2, 3, 6, 7]);
}

#[test]
fn trace_variable_goes_depth_first() {
    let code = "fn f() {\nlet a = 1;\nlet b = 2;\nlet c = a + b;\nlet d = c;\n}";
    let tree = rust_tree(code);
    let flow = trace_variable(code, &tree, 5, "d");
    let vars: Vec<&str> = flow.iter().map(|e| e.var.as_str()).collect();
    assert_eq!(vars, vec!["d", "c", "b", "a"]);
    let lines: Vec<usize> = flow.iter().map(|e| e.line).collect();
    assert_eq!(lines, vec![5, 4, 3, 2]);
}

#[test]
fn flatten_stmts_reaches_every_branch() {
    let code = "fn f(x: i32) {\nlet a = 1;\nif x > 0 {\nlet b = 2;\n} else {\nlet c = a;\n}\nunsafe {\nlet d = 3;\n}\nmatch x {\n1 => {\nlet e = 4;\n}\n_ => {}\n}\nlet g = |y: i32| { let h = y; h };\n}";
    let t = parse_rust(code).unwrap();
    let f = (0..t.nodes.len()).find(|&k| t.nodes[k].kind == "function_item").unwrap();
    let stmts = qtcloud_code_cli::reflect::slice::flatten_stmts(&t, f);
    let mut lines: Vec<usize> = stmts.iter().filter(|&&s| t.nodes[s].kind == "let_declaration").map(|&s| t.nodes[s].start_row + 1).collect();
    lines.sort();
    assert_eq!(lines, vec![2, 4, 6, 9, 13, 17]);
}
