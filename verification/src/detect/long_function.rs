//! Functions whose bodies span too many lines.
use vstd::prelude::*;
use crate::syntax::{SyntaxTree, collect_some, first_identifier_text};
use crate::text::{decimal, decimal_string};
use super::{Detector, Finding, FindingView, Severity, graded, views};

verus! {

broadcast use vstd::string::group_string_axioms;

pub const MAY_THRESHOLD: usize = 30;
pub const SHOULD_THRESHOLD: usize = 50;
pub const MUST_THRESHOLD: usize = 80;

pub struct LongFunctionDetector;

/// The name of function node `i`: the text of its first `identifier` child,
/// or `<anonymous>`.
pub open spec fn function_name(t: SyntaxTree, i: int) -> Seq<char> {
    match first_identifier_text(t, t.children(i)) {
        Some(n) => n,
        None => "<anonymous>"@,
    }
}

/// The finding for node `i`, if it is a function whose rows span more than
/// the `May` threshold.
pub open spec fn long_function_finding(t: SyntaxTree, file: Seq<char>, i: int) -> Option<FindingView> {
    if t.kind(i) == "function_item"@ {
        let lines = t.node(i).end_row - t.node(i).start_row;
        match graded(lines, 30, 50, 80) {
            Some(sev) => Some(FindingView {
                file_path: file,
                line: t.line(i),
                column: 1,
                severity: sev,
                rule_id: "long-function"@,
                message: "函数 `"@ + function_name(t, i) + "` 共 "@ + decimal(lines as nat) + " 行"@,
            }),
            None => None,
        }
    } else {
        None
    }
}

pub open spec fn long_function_at(t: SyntaxTree, file: Seq<char>) -> spec_fn(int) -> Option<FindingView> {
    |i: int| long_function_finding(t, file, i)
}

/// The findings of the rule over the whole tree, in pre-order.
pub open spec fn long_function_findings(t: SyntaxTree, file: Seq<char>) -> Seq<FindingView> {
    collect_some(long_function_at(t, file), 0, t.len())
}

/// `Must` above 80 lines, `Should` above 50, `May` above 30.
pub fn classify(lines: usize) -> (r: Option<Severity>)
    ensures
        r == graded(lines as int, 30, 50, 80),
{
    if lines > MUST_THRESHOLD {
        Some(Severity::Must)
    } else if lines > SHOULD_THRESHOLD {
        Some(Severity::Should)
    } else if lines > MAY_THRESHOLD {
        Some(Severity::May)
    } else {
        None
    }
}

/// The name of function node `i`.
pub fn extract_function_name(tree: &SyntaxTree, i: usize) -> (r: String)
    requires
        tree.wf(),
        i < tree.len(),
    ensures
        r@ == function_name(*tree, i as int),
{
    let cs = tree.children_of(i);
    match tree.first_identifier_among(&cs) {
        Some(n) => n,
        None => "<anonymous>".to_string(),
    }
}

impl Detector for LongFunctionDetector {
    fn rule_id(&self) -> (r: &'static str)
        ensures
            r@ == "long-function"@,
    {
        "long-function"
    }

    fn description(&self) -> (r: &'static str)
        ensures
            r@ == "函数体过长"@,
    {
        "函数体过长"
    }

    fn detect(&self, source: &str, tree: &SyntaxTree, file_path: &str) -> (r: Vec<Finding>)
        ensures
            views(r@) == long_function_findings(*tree, file_path@),
    {
        let ghost f = long_function_at(*tree, file_path@);
        let mut findings: Vec<Finding> = Vec::new();
        let n = tree.nodes.len();
        let mut i: usize = 0;
        while i < n
            invariant
                tree.wf(),
                n == tree.len(),
                i <= n,
                f == long_function_at(*tree, file_path@),
                views(findings@) == collect_some(f, 0, i as int),
            decreases n - i,
        {
            assert(tree.node_ok(i as int));
            let ghost before = findings@;
            if tree.kind_is(i, "function_item") {
                let start = tree.nodes[i].start_row;
                let end = tree.nodes[i].end_row;
                let body_lines = end - start;
                if let Some(severity) = classify(body_lines) {
                    let name = extract_function_name(tree, i);
                    let mut message = "函数 `".to_string();
                    message.append(name.as_str());
                    message.append("` 共 ");
                    message.append(decimal_string(body_lines).as_str());
                    message.append(" 行");
                    findings.push(Finding {
                        file_path: file_path.to_string(),
                        line: start + 1,
                        column: 1,
                        severity,
                        rule_id: self.rule_id().to_string(),
                        message,
                    });
                }
            }
            assert(views(findings@) =~= collect_some(f, 0, i + 1));
            i = i + 1;
        }
        findings
    }
}

} // verus!
