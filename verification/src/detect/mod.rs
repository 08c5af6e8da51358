//! Rule-based detectors and the findings they report.
use vstd::prelude::*;
use crate::syntax::SyntaxTree;

pub mod long_function;
pub mod unsafe_block;
pub mod long_parameter_list;
pub mod dead_code;
pub mod missing_tests;
pub mod depgraph;
pub mod unused_variable;

verus! {

/// How strongly a finding asks for a change.
#[derive(Debug, Clone, Copy, PartialEq, Eq, Structural)]
pub enum Severity {
    Must,
    Should,
    May,
}

/// One problem found in a file.
#[derive(Debug, Clone)]
pub struct Finding {
    pub file_path: String,
    pub line: usize,
    pub column: usize,
    pub severity: Severity,
    pub rule_id: String,
    pub message: String,
}

/// A finding as plain values.
pub struct FindingView {
    pub file_path: Seq<char>,
    pub line: int,
    pub column: int,
    pub severity: Severity,
    pub rule_id: Seq<char>,
    pub message: Seq<char>,
}

impl View for Finding {
    type V = FindingView;

    open spec fn view(&self) -> FindingView {
        FindingView {
            file_path: self.file_path@,
            line: self.line as int,
            column: self.column as int,
            severity: self.severity,
            rule_id: self.rule_id@,
            message: self.message@,
        }
    }
}

/// The severity that a measure earns against three increasing thresholds:
/// above `must` it is `Must`, above `should` it is `Should`, above `may` it
/// is `May`, and otherwise there is none.
pub open spec fn graded(n: int, may: int, should: int, must: int) -> Option<Severity> {
    if n > must {
        Some(Severity::Must)
    } else if n > should {
        Some(Severity::Should)
    } else if n > may {
        Some(Severity::May)
    } else {
        None
    }
}

/// The order of severities, from none to `Must`.
pub open spec fn severity_rank(s: Option<Severity>) -> int {
    match s {
        None => 0,
        Some(Severity::May) => 1,
        Some(Severity::Should) => 2,
        Some(Severity::Must) => 3,
    }
}

/// A larger measure never earns a milder severity: grading is monotone in
/// the measure, for increasing thresholds.
pub proof fn lemma_graded_monotone(n: int, m: int, may: int, should: int, must: int)
    requires
        n <= m,
        may <= should <= must,
    ensures
        severity_rank(graded(n, may, should, must)) <= severity_rank(graded(m, may, should, must)),
{
}

/// The views of a list of findings.
pub open spec fn views(v: Seq<Finding>) -> Seq<FindingView> {
    v.map_values(|f: Finding| f@)
}

/// A rule that inspects one parsed file.
pub trait Detector {
    fn rule_id(&self) -> &'static str;

    fn description(&self) -> &'static str;

    fn detect(&self, source: &str, tree: &SyntaxTree, file_path: &str) -> Vec<Finding>
        requires
            tree.wf(),
    ;
}

} // verus!
