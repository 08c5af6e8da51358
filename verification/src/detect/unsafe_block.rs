//! `unsafe` blocks that hold too many statements.
use vstd::prelude::*;
use crate::syntax::{SyntaxTree, collect_some, sum_of, ints, lemma_sum_le, lemma_sum_le_len, lemma_sum_step};
use crate::text::{decimal, decimal_string, ends_with, str_ends_with};
use super::{Detector, Finding, FindingView, Severity, graded, views};

verus! {

broadcast use vstd::string::group_string_axioms;

pub const MAY_THRESHOLD: usize = 3;
pub const SHOULD_THRESHOLD: usize = 5;
pub const MUST_THRESHOLD: usize = 8;

pub struct UnsafeBlockDetector;

/// A node kind that counts as a statement.
pub open spec fn is_statement_kind(k: Seq<char>) -> bool {
    ends_with(k, "_statement"@) || k == "expression_statement"@
}

pub open spec fn statement_flags(t: SyntaxTree) -> spec_fn(int) -> nat {
    |s: int| if is_statement_kind(t.kind(s)) { 1nat } else { 0nat }
}

pub open spec fn block_statements(t: SyntaxTree) -> spec_fn(int) -> nat {
    |c: int| if t.kind(c) == "block"@ { sum_of(t.children(c), statement_flags(t)) } else { 0nat }
}

/// The statements directly inside the `block` children of node `i`.
pub open spec fn statement_count(t: SyntaxTree, i: int) -> nat {
    sum_of(t.children(i), block_statements(t))
}

/// The finding for node `i`, if it is an `unsafe` block with more than three
/// statements.
pub open spec fn wide_unsafe_finding(t: SyntaxTree, file: Seq<char>, i: int) -> Option<FindingView> {
    if t.kind(i) == "unsafe_block"@ {
        let n = statement_count(t, i);
        match graded(n as int, 3, 5, 8) {
            Some(sev) => Some(FindingView {
                file_path: file,
                line: t.line(i),
                column: t.node(i).start_col + 1,
                severity: sev,
                rule_id: "rust-wide-unsafe"@,
                message: "unsafe 块包含 "@ + decimal(n) + " 条语句"@,
            }),
            None => None,
        }
    } else {
        None
    }
}

pub open spec fn wide_unsafe_at(t: SyntaxTree, file: Seq<char>) -> spec_fn(int) -> Option<FindingView> {
    |i: int| wide_unsafe_finding(t, file, i)
}

/// The findings of the rule over the whole tree, in pre-order.
pub open spec fn wide_unsafe_findings(t: SyntaxTree, file: Seq<char>) -> Seq<FindingView> {
    collect_some(wide_unsafe_at(t, file), 0, t.len())
}

/// `Must` above 8 statements, `Should` above 5, `May` above 3.
pub fn classify(stmts: usize) -> (r: Option<Severity>)
    ensures
        r == graded(stmts as int, 3, 5, 8),
{
    if stmts > MUST_THRESHOLD {
        Some(Severity::Must)
    } else if stmts > SHOULD_THRESHOLD {
        Some(Severity::Should)
    } else if stmts > MAY_THRESHOLD {
        Some(Severity::May)
    } else {
        None
    }
}

/// The statements directly inside the `block` children of node `i`.
pub fn count_block_statements(tree: &SyntaxTree, i: usize) -> (r: usize)
    requires
        tree.wf(),
        i < tree.len(),
    ensures
        r == statement_count(*tree, i as int),
{
    let cs = tree.children_of(i);
    let ghost all = ints(cs@);
    let ghost f = block_statements(*tree);
    let ghost g = statement_flags(*tree);
    proof {
        assert forall|k: int| 0 <= k < all.len() implies f(all[k]) <= tree.child_counts()(all[k]) by {
            let c = all[k];
            if tree.kind(c) == "block"@ {
                lemma_sum_le_len(tree.children(c), g);
            }
        }
        lemma_sum_le(all, f, tree.child_counts());
        tree.lemma_grandchildren(i as int);
        assert(all.skip(0) =~= all);
    }
    let mut count: usize = 0;
    let mut k: usize = 0;
    while k < cs.len()
        invariant
            tree.wf(),
            k <= cs@.len(),
            all == ints(cs@),
            all == tree.children(i as int),
            f == block_statements(*tree),
            g == statement_flags(*tree),
            forall|m: int| 0 <= m < cs@.len() ==> #[trigger] cs@[m] < tree.len(),
            count + sum_of(all.skip(k as int), f) == sum_of(all, f),
            sum_of(all, f) < tree.len(),
        decreases cs@.len() - k,
    {
        let c = cs[k];
        proof {
            lemma_sum_step(all, f, k as int);
            assert(all[k as int] == c as int);
        }
        if tree.kind_is(c, "block") {
            let gs = tree.children_of(c);
            let ghost gall = ints(gs@);
            let ghost before = count;
            assert(gall.skip(0) =~= gall);
            let mut m: usize = 0;
            while m < gs.len()
                invariant
                    tree.wf(),
                    m <= gs@.len(),
                    gall == ints(gs@),
                    gall == tree.children(c as int),
                    g == statement_flags(*tree),
                    forall|q: int| 0 <= q < gs@.len() ==> #[trigger] gs@[q] < tree.len(),
                    count + sum_of(gall.skip(m as int), g) == before + sum_of(gall, g),
                    before + sum_of(gall, g) < tree.len(),
                decreases gs@.len() - m,
            {
                let s = gs[m];
                proof {
                    lemma_sum_step(gall, g, m as int);
                    assert(gall[m as int] == s as int);
                }
                if str_ends_with(tree.nodes[s].kind.as_str(), "_statement") || tree.kind_is(s, "expression_statement") {
                    assert(g(s as int) == 1);
                    count = count + 1;
                }
                m = m + 1;
            }
        }
        k = k + 1;
    }
    count
}

impl Detector for UnsafeBlockDetector {
    fn rule_id(&self) -> (r: &'static str)
        ensures
            r@ == "rust-wide-unsafe"@,
    {
        "rust-wide-unsafe"
    }

    fn description(&self) -> (r: &'static str)
        ensures
            r@ == "unsafe 块包含过多语句"@,
    {
        "unsafe 块包含过多语句"
    }

    fn detect(&self, source: &str, tree: &SyntaxTree, file_path: &str) -> (r: Vec<Finding>)
        ensures
            views(r@) == wide_unsafe_findings(*tree, file_path@),
    {
        let ghost f = wide_unsafe_at(*tree, file_path@);
        let mut findings: Vec<Finding> = Vec::new();
        let n = tree.nodes.len();
        let mut i: usize = 0;
        while i < n
            invariant
                tree.wf(),
                n == tree.len(),
                i <= n,
                f == wide_unsafe_at(*tree, file_path@),
                views(findings@) == collect_some(f, 0, i as int),
            decreases n - i,
        {
            assert(tree.node_ok(i as int));
            if tree.kind_is(i, "unsafe_block") {
                let stmt_count = count_block_statements(tree, i);
                if let Some(severity) = classify(stmt_count) {
                    let mut message = "unsafe 块包含 ".to_string();
                    message.append(decimal_string(stmt_count).as_str());
                    message.append(" 条语句");
                    findings.push(Finding {
                        file_path: file_path.to_string(),
                        line: tree.nodes[i].start_row + 1,
                        column: tree.nodes[i].start_col + 1,
                        severity,
                        rule_id: self.rule_id().to_string(),
                        message,
                    });
                }
            }
            assert(views(findings@) =~= collect_some(f, 0, i + 1));
            i = i + 1;
        }
        findings
    }
}

} // verus!
