use qtcloud_code_cli::detect::{Finding, Severity};
use qtcloud_code_cli::report::{severity_icon, write_status, write_terminal};

fn finding(file: &str, line: usize, severity: Severity, rule: &str, msg: &str) -> Finding {
    Finding {
        file_path: file.to_string(),
        line,
        column: 1,
        severity,
        rule_id: rule.to_string(),
        message: msg.to_string(),
    }
}

#[test]
fn terminal_empty() {
    assert_eq!(write_terminal(&vec![]), "未发现问题\n");
}

#[test]
fn terminal_groups_by_sorted_file() {
    let fs = vec![
        finding("b.rs", 3, Severity::Must, "r1", "m1"),
        finding("a.rs", 1, Severity::May, "r2", "m2"),
        finding("b.rs", 1, Severity::Should, "r3", "m3"),
    ];
    assert_eq!(
        write_terminal(&fs),
        "a.rs:\n  🔵 1:1  r2  m2\nb.rs:\n  🔴 3:1  r1  m1\n  🟡 1:1  r3  m3\n"
    );
}

#[test]
fn status_page() {
    let fs = vec![
        finding("b.rs", 3, Severity::Must, "r1", "m1"),
        finding("a.rs", 1, Severity::May, "r2", "m2"),
    ];
    let s = write_status(&fs, 42);
    assert_eq!(
        s,
        "# Code Scan Status\n\n> 自动生成于 qtcloud-code scan，时间戳: 42\n\n## 汇总\n\n| 严重度 | 数量 |\n|--------|------|\n| Error   | 1 |\n| Warning | 0 |\n| Info    | 1 |\n| **Total** | **2** |\n\n## 详情\n\n- **a.rs** (1 项)\n  - 🔵 `r2` 1:1 — m2\n- **b.rs** (1 项)\n  - 🔴 `r1` 3:1 — m1\n"
    );
}

#[test]
fn status_page_empty() {
    let s = write_status(&vec![], 7);
    assert!(s.ends_with("| **Total** | **0** |\n\n✅ 未发现问题\n"));
}

#[test]
fn icons() {
    assert_eq!(severity_icon(Severity::Must), "🔴");
    assert_eq!(severity_icon(Severity::Should), "🟡");
    assert_eq!(severity_icon(Severity::May), "🔵");
}
