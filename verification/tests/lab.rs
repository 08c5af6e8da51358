use qtcloud_code_cli::lab::{
    chat_reply_content, context_lines, count_issues, extract_deps, file_to_module, review_output,
};

#[test]
fn modules_of_files() {
    assert_eq!(file_to_module("src/main.rs"), "main");
    assert_eq!(file_to_module("src/config.rs"), "config");
    assert_eq!(file_to_module("src/parser/mod.rs"), "parser::mod");
    assert_eq!(file_to_module("src/parser/rust/x.rs"), "parser::rust::x");
    assert_eq!(file_to_module("lib/x.rs"), "lib/x.rs");
}

#[test]
fn deps_of_source() {
    let src = "pub mod rust;\nmod python;\nuse crate::config;\n  pub use crate::config::CodeConfig;  \nuse std::fmt;\nmod inline { }\n";
    let (imports, subs) = extract_deps(src);
    assert_eq!(imports, vec!["config", "config::CodeConfig"]);
    assert_eq!(subs, vec!["python"]);
}

#[test]
fn context_around_a_line() {
    let content = "a\nb\nc\nd\ne\nf\ng\nh";
    assert_eq!(context_lines(content, 7), "  2: b\n  3: c\n  4: d\n  5: e\n  6: f\n →7: g\n  8: h");
    assert_eq!(context_lines("x\ny", 1), " →1: x\n  2: y");
    assert_eq!(context_lines("", 3), "");
}

#[test]
fn issues_and_replies() {
    assert_eq!(count_issues("{\"issues\": [{}, {}]}"), 2);
    assert_eq!(count_issues("{\"summary\": \"ok\"}"), 0);
    assert_eq!(count_issues("not json"), 0);
    assert_eq!(
        chat_reply_content("{\"choices\":[{\"message\":{\"content\":\"```\\n{\\\"a\\\":1}\\n```\"}}]}"),
        "{\"a\":1}"
    );
    assert_eq!(chat_reply_content("oops"), "(parse error)");
    assert_eq!(chat_reply_content("{\"choices\":[]}"), "(parse error)");
}

#[test]
fn review_output_reads_a_json_array() {
    let vs = review_output(b"[{\"a\":1},{}]").unwrap();
    assert_eq!(vs.len(), 2);
    assert_eq!(vs[0]["a"].as_u64(), Some(1));
    assert!(vs[1].as_object().unwrap().is_empty());
    let err = review_output(b"oops").unwrap_err();
    assert!(err.starts_with("解析 finding 失败: "));
}
