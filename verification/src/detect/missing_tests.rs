//! Source files that have no test: no test file of their own, no inline
//! tests and no test file beside them or in a tests directory.
use vstd::prelude::*;
use crate::syntax::{collect_some, lemma_collect_some_contains};
use crate::text::{
    starts_with, ends_with, contains, str_starts_with, str_ends_with, str_contains, str_equal,
    string_views, concat,
};
use crate::paths::{
    components, relative_components, file_name_of, extension_or_empty, stem_or_empty, path_text,
    path_components, strip_prefix_components, file_name, extension_or_empty_of, stem_or_empty_of,
    components_text,
};
use super::{Finding, FindingView, Severity, views};

verus! {

broadcast use vstd::string::group_string_axioms;

pub const RULE_ID: &'static str = "missing-tests";
pub const DESCRIPTION: &'static str = "源文件缺少对应测试";

/// A source file as the check sees it: its path, its text when it could be
/// read, and whether one of its external test files exists.
pub struct SourceFile {
    pub path: String,
    pub content: Option<String>,
    pub has_external_test: bool,
}

pub struct SourceFileView {
    pub path: Seq<char>,
    pub content: Option<Seq<char>>,
    pub has_external_test: bool,
}

impl View for SourceFile {
    type V = SourceFileView;

    open spec fn view(&self) -> SourceFileView {
        SourceFileView {
            path: self.path@,
            content: match self.content {
                Some(c) => Some(c@),
                None => None,
            },
            has_external_test: self.has_external_test,
        }
    }
}

/// The extensions of the source files that need tests.
pub open spec fn is_source_extension(e: Seq<char>) -> bool {
    e == "rs"@ || e == "py"@ || e == "go"@ || e == "dart"@ || e == "ts"@ || e == "tsx"@
}

/// A path, given by its components, that is itself a test file.
pub open spec fn is_test_components(cs: Seq<Seq<char>>) -> bool {
    let name = match file_name_of(cs) {
        Some(n) => n,
        None => Seq::empty(),
    };
    let ext = extension_or_empty(cs);
    ||| cs.len() > 0 && cs[0] == "tests"@ && ext == "rs"@
    ||| ends_with(name, "_test.go"@)
    ||| ends_with(name, "_test.dart"@)
    ||| contains(name, ".test."@)
    ||| starts_with(name, "test_"@) && ext == "py"@
}

/// The text of a file with extension `ext` holds tests of its own.
pub open spec fn has_inline_markers(ext: Seq<char>, content: Seq<char>) -> bool {
    if ext == "rs"@ {
        contains(content, "#[cfg(test)]"@)
    } else if ext == "py"@ {
        contains(content, "if __name__ == '__main__'"@) || contains(content, "import unittest"@)
    } else if ext == "go"@ {
        contains(content, "func Test"@) || contains(content, "func Benchmark"@)
    } else if ext == "dart"@ {
        contains(content, "void main"@) && contains(content, "test("@)
    } else if ext == "ts"@ || ext == "tsx"@ {
        contains(content, "describe("@) || contains(content, "it("@) || contains(content, "test("@)
    } else {
        false
    }
}

/// The directories that the check skips.
pub open spec fn is_skipped_top(c: Seq<char>) -> bool {
    c == "target"@ || c == ".git"@ || c == ".pytest_cache"@
}

/// Whether `files[i]` repeats an earlier file (paths equal component by
/// component).
pub open spec fn seen_before(files: Seq<SourceFileView>, i: int) -> bool {
    exists|j: int| 0 <= j < i && #[trigger] components(files[j].path) == components(files[i].path)
}

/// The finding for `files[i]`, if it is a source file under `root` with no
/// test.
pub open spec fn missing_test_finding(root: Seq<char>, files: Seq<SourceFileView>, i: int) -> Option<FindingView> {
    let f = files[i];
    if seen_before(files, i) {
        None
    } else {
        match relative_components(f.path, root) {
            Some(rel) => {
                let top = if rel.len() > 0 { rel[0] } else { Seq::empty() };
                let ext = extension_or_empty(rel);
                let inline = match f.content {
                    Some(c) => has_inline_markers(ext, c),
                    None => false,
                };
                if is_skipped_top(top) || !is_source_extension(ext) || is_test_components(rel)
                    || inline || f.has_external_test {
                    None
                } else {
                    Some(FindingView {
                        file_path: f.path,
                        line: 1,
                        column: 1,
                        severity: Severity::Must,
                        rule_id: "missing-tests"@,
                        message: "`"@ + path_text(rel) + "` 缺少对应测试"@,
                    })
                }
            },
            None => None,
        }
    }
}

pub open spec fn missing_test_at(root: Seq<char>, files: Seq<SourceFileView>) -> spec_fn(int) -> Option<FindingView> {
    |i: int| missing_test_finding(root, files, i)
}

/// The findings for a list of files, in order.
pub open spec fn missing_test_findings(root: Seq<char>, files: Seq<SourceFileView>) -> Seq<FindingView> {
    collect_some(missing_test_at(root, files), 0, files.len() as int)
}

/// The candidate test files of `rel` (relative to `root`), as component
/// lists.
pub open spec fn test_candidates(root: Seq<char>, rel: Seq<char>) -> Seq<Seq<Seq<char>>> {
    let cs = components(rel);
    let rc = components(root);
    let ext = extension_or_empty(cs);
    let stem = stem_or_empty(cs);
    let parent = if cs.len() > 0 { cs.drop_last() } else { cs };
    if ext == "rs"@ {
        seq![rc + seq!["tests"@, stem + ".rs"@]]
    } else if ext == "py"@ {
        seq![rc + seq!["tests"@, "test_"@ + stem + ".py"@]]
    } else if ext == "go"@ {
        seq![rc + parent + seq![stem + "_test.go"@]]
    } else if ext == "dart"@ {
        seq![rc + seq!["test"@, stem + "_test.dart"@]]
    } else if ext == "ts"@ || ext == "tsx"@ {
        seq![
            rc + parent + seq![stem + ".test."@ + ext],
            rc + parent + seq!["__tests__"@, stem + ".test."@ + ext],
        ]
    } else {
        Seq::empty()
    }
}

/// Whether the file at `rel` is a test file itself: a Rust file under
/// `tests/`, a `_test.go` or `_test.dart` file, a file with `.test.` in its
/// name, or a Python file whose name starts with `test_`.
pub fn is_test_file(rel: &str) -> (r: bool)
    ensures
        r == is_test_components(components(rel@)),
{
    let cs = path_components(rel);
    is_test_path_components(&cs)
}

fn is_test_path_components(cs: &Vec<String>) -> (r: bool)
    ensures
        r == is_test_components(string_views(cs@)),
{
    let name = match file_name(cs) {
        Some(n) => n,
        None => String::new(),
    };
    let ext = extension_or_empty_of(cs);
    let in_tests = cs.len() > 0 && str_equal(cs[0].as_str(), "tests") && str_equal(ext.as_str(), "rs");
    in_tests || str_ends_with(name.as_str(), "_test.go") || str_ends_with(name.as_str(), "_test.dart")
        || str_contains(name.as_str(), ".test.")
        || (str_starts_with(name.as_str(), "test_") && str_equal(ext.as_str(), "py"))
}

/// Whether the text of a file with extension `ext` holds tests of its own:
/// `#[cfg(test)]` in Rust; a main guard or `unittest` in Python; `func Test`
/// or `func Benchmark` in Go; `void main` with `test(` in Dart; `describe(`,
/// `it(` or `test(` in TypeScript.
pub fn has_inline_tests(ext: &str, content: &str) -> (r: bool)
    ensures
        r == has_inline_markers(ext@, content@),
{
    if str_equal(ext, "rs") {
        str_contains(content, "#[cfg(test)]")
    } else if str_equal(ext, "py") {
        str_contains(content, "if __name__ == '__main__'") || str_contains(content, "import unittest")
    } else if str_equal(ext, "go") {
        str_contains(content, "func Test") || str_contains(content, "func Benchmark")
    } else if str_equal(ext, "dart") {
        str_contains(content, "void main") && str_contains(content, "test(")
    } else if str_equal(ext, "ts") || str_equal(ext, "tsx") {
        str_contains(content, "describe(") || str_contains(content, "it(") || str_contains(content, "test(")
    } else {
        false
    }
}

/// A list of components with more at its end.
fn extended(base: &Vec<String>, more: &Vec<String>) -> (r: Vec<String>)
    ensures
        string_views(r@) == string_views(base@) + string_views(more@),
{
    let mut r: Vec<String> = Vec::new();
    let mut k: usize = 0;
    while k < base.len()
        invariant
            k <= base@.len(),
            string_views(r@) == string_views(base@).take(k as int),
        decreases base@.len() - k,
    {
        let ghost before = r@;
        let x = base[k].clone();
        r.push(x);
        proof {
            crate::text::lemma_views_push(before, x);
            assert(string_views(base@).take(k + 1) =~= string_views(base@).take(k as int).push(x@));
        }
        k = k + 1;
    }
    let mut j: usize = 0;
    while j < more.len()
        invariant
            j <= more@.len(),
            string_views(r@) == string_views(base@) + string_views(more@).take(j as int),
        decreases more@.len() - j,
    {
        let ghost before = r@;
        let x = more[j].clone();
        r.push(x);
        proof {
            crate::text::lemma_views_push(before, x);
            assert(string_views(more@).take(j + 1) =~= string_views(more@).take(j as int).push(x@));
            assert(string_views(base@) + string_views(more@).take(j + 1)
                =~= (string_views(base@) + string_views(more@).take(j as int)).push(x@));
        }
        j = j + 1;
    }
    assert(string_views(base@).take(base@.len() as int) =~= string_views(base@));
    assert(string_views(more@).take(more@.len() as int) =~= string_views(more@));
    r
}

/// The path of the candidate test files of the source file at `rel`
/// (relative to `project_root`): for Rust `tests/<stem>.rs`, for Python
/// `tests/test_<stem>.py`, for Go `<stem>_test.go` beside it, for Dart
/// `test/<stem>_test.dart`, and for TypeScript `<stem>.test.<ext>` beside it
/// and in `__tests__` beside it.
pub fn external_test_candidates(project_root: &str, rel: &str) -> (r: Vec<String>)
    ensures
        string_views(r@) == test_candidates(project_root@, rel@).map_values(|cs: Seq<Seq<char>>| path_text(cs)),
{
    let cs = path_components(rel);
    let rc = path_components(project_root);
    let ext = extension_or_empty_of(&cs);
    let stem = stem_or_empty_of(&cs);
    let mut parent: Vec<String> = Vec::new();
    let mut k: usize = 0;
    let n = cs.len();
    while k + 1 < n
        invariant
            n == cs@.len(),
            k <= n,
            k + 1 < n || k == 0 || k + 1 == n,
            string_views(parent@) == string_views(cs@).take(k as int),
        decreases n - k,
    {
        let ghost before = parent@;
        let x = cs[k].clone();
        parent.push(x);
        proof {
            crate::text::lemma_views_push(before, x);
            assert(string_views(cs@).take(k + 1) =~= string_views(cs@).take(k as int).push(x@));
        }
        k = k + 1;
    }
    proof {
        if n > 0 {
            assert(string_views(cs@).take(k as int) =~= string_views(cs@).drop_last());
        } else {
            assert(string_views(cs@).take(0) =~= string_views(cs@));
        }
    }
    let mut r: Vec<String> = Vec::new();
    let ghost cands = test_candidates(project_root@, rel@);
    if str_equal(ext.as_str(), "rs") {
        let tail = vec!["tests".to_string(), concat(stem.as_str(), ".rs")];
        r.push(components_text(&extended(&rc, &tail)));
        assert(string_views(tail@) =~= seq!["tests"@, stem@ + ".rs"@]);
    } else if str_equal(ext.as_str(), "py") {
        let tail = vec!["tests".to_string(), concat(concat("test_", stem.as_str()).as_str(), ".py")];
        r.push(components_text(&extended(&rc, &tail)));
        assert(string_views(tail@) =~= seq!["tests"@, "test_"@ + stem@ + ".py"@]);
    } else if str_equal(ext.as_str(), "go") {
        let tail = vec![concat(stem.as_str(), "_test.go")];
        r.push(components_text(&extended(&extended(&rc, &parent), &tail)));
        assert(string_views(tail@) =~= seq![stem@ + "_test.go"@]);
    } else if str_equal(ext.as_str(), "dart") {
        let tail = vec!["test".to_string(), concat(stem.as_str(), "_test.dart")];
        r.push(components_text(&extended(&rc, &tail)));
        assert(string_views(tail@) =~= seq!["test"@, stem@ + "_test.dart"@]);
    } else if str_equal(ext.as_str(), "ts") || str_equal(ext.as_str(), "tsx") {
        let name = concat(concat(stem.as_str(), ".test.").as_str(), ext.as_str());
        let tail1 = vec![name.clone()];
        let tail2 = vec!["__tests__".to_string(), name];
        let base = extended(&rc, &parent);
        r.push(components_text(&extended(&base, &tail1)));
        r.push(components_text(&extended(&base, &tail2)));
        assert(string_views(tail1@) =~= seq![stem@ + ".test."@ + ext@]);
        assert(string_views(tail2@) =~= seq!["__tests__"@, stem@ + ".test."@ + ext@]);
    }
    assert(string_views(r@) =~= cands.map_values(|cs: Seq<Seq<char>>| path_text(cs)));
    r
}

/// The path of `file` relative to `project_root`, when it lies below it.
pub fn relative_path(file: &str, project_root: &str) -> (r: Option<String>)
    ensures
        match r {
            Some(t) => relative_components(file@, project_root@) matches Some(rel) && t@ == path_text(rel),
            None => relative_components(file@, project_root@) is None,
        },
{
    match strip_prefix_components(file, project_root) {
        Some(rel) => Some(components_text(&rel)),
        None => None,
    }
}

/// Whether two component lists are equal.
fn same_components(a: &Vec<String>, b: &Vec<String>) -> (r: bool)
    ensures
        r == (string_views(a@) == string_views(b@)),
{
    let ghost sa = string_views(a@);
    let ghost sb = string_views(b@);
    if a.len() != b.len() {
        assert(sa.len() != sb.len());
        return false;
    }
    let mut k: usize = 0;
    while k < a.len()
        invariant
            sa == string_views(a@),
            sb == string_views(b@),
            a@.len() == b@.len(),
            k <= a@.len(),
            forall|m: int| 0 <= m < k ==> sa[m] == sb[m],
        decreases a@.len() - k,
    {
        if !str_equal(a[k].as_str(), b[k].as_str()) {
            assert(sa[k as int] != sb[k as int]);
            return false;
        }
        k = k + 1;
    }
    assert(sa =~= sb);
    true
}

/// The source files among `source_files` that lie below `project_root`,
/// outside `target`, `.git` and `.pytest_cache`, have one of the extensions
/// `rs`, `py`, `go`, `dart`, `ts`, `tsx`, are not test files themselves,
/// hold no inline tests and have no external test file: one `Must` finding
/// each, at line 1, column 1, in the order given, a repeated file once.
pub fn check_missing_tests(project_root: &str, source_files: &Vec<SourceFile>) -> (r: Vec<Finding>)
    ensures
        views(r@) == missing_test_findings(project_root@, source_files@.map_values(|f: SourceFile| f@)),
{
    let ghost files = source_files@.map_values(|f: SourceFile| f@);
    let ghost g = missing_test_at(project_root@, files);
    let mut seen: Vec<Vec<String>> = Vec::new();
    let mut findings: Vec<Finding> = Vec::new();
    let mut i: usize = 0;
    while i < source_files.len()
        invariant
            i <= source_files@.len(),
            files == source_files@.map_values(|f: SourceFile| f@),
            g == missing_test_at(project_root@, files),
            seen@.len() == i,
            forall|m: int| 0 <= m < i ==> string_views(#[trigger] seen@[m]@) == components(files[m].path),
            views(findings@) == collect_some(g, 0, i as int),
        decreases source_files@.len() - i,
    {
        let file = &source_files[i];
        assert(files[i as int] == file@);
        let cs = path_components(file.path.as_str());
        let mut dup = false;
        let mut j: usize = 0;
        while j < seen.len()
            invariant
                j <= seen@.len(),
                seen@.len() == i,
                i < files.len(),
                files[i as int] == file@,
                string_views(cs@) == components(file.path@),
                forall|m: int| 0 <= m < i ==> string_views(#[trigger] seen@[m]@) == components(files[m].path),
                dup == exists|m: int| 0 <= m < j && #[trigger] components(files[m].path) == components(files[i as int].path),
            decreases seen@.len() - j,
        {
            if same_components(&seen[j], &cs) {
                dup = true;
            }
            j = j + 1;
        }
        assert(dup == seen_before(files, i as int));
        seen.push(cs);
        if !dup {
            match strip_prefix_components(file.path.as_str(), project_root) {
                Some(rel) => {
                    let top = if rel.len() > 0 { rel[0].clone() } else { String::new() };
                    let ext = extension_or_empty_of(&rel);
                    let skipped_top = str_equal(top.as_str(), "target") || str_equal(top.as_str(), ".git")
                        || str_equal(top.as_str(), ".pytest_cache");
                    let source_ext = str_equal(ext.as_str(), "rs") || str_equal(ext.as_str(), "py")
                        || str_equal(ext.as_str(), "go") || str_equal(ext.as_str(), "dart")
                        || str_equal(ext.as_str(), "ts") || str_equal(ext.as_str(), "tsx");
                    let inline = match &file.content {
                        Some(c) => has_inline_tests(ext.as_str(), c.as_str()),
                        None => false,
                    };
                    if !skipped_top && source_ext && !is_test_path_components(&rel) && !inline
                        && !file.has_external_test {
                        let mut message = "`".to_string();
                        message.append(components_text(&rel).as_str());
                        message.append("` 缺少对应测试");
                        findings.push(Finding {
                            file_path: file.path.clone(),
                            line: 1,
                            column: 1,
                            severity: Severity::Must,
                            rule_id: RULE_ID.to_string(),
                            message,
                        });
                    }
                },
                None => {},
            }
        }
        assert(views(findings@) =~= collect_some(g, 0, i + 1));
        i = i + 1;
    }
    findings
}

/// A finding for `files[i]` names that file.
proof fn lemma_finding_path(root: Seq<char>, files: Seq<SourceFileView>, i: int, x: FindingView)
    requires
        missing_test_finding(root, files, i) == Some(x),
    ensures
        x.file_path == files[i].path,
        !seen_before(files, i),
{
}

proof fn lemma_reported_once_upto(root: Seq<char>, files: Seq<SourceFileView>, hi: int, a: int, b: int)
    requires
        0 <= hi <= files.len(),
        0 <= a < b < collect_some(missing_test_at(root, files), 0, hi).len(),
    ensures
        components(collect_some(missing_test_at(root, files), 0, hi)[a].file_path)
            != components(collect_some(missing_test_at(root, files), 0, hi)[b].file_path),
    decreases hi,
{
    let f = missing_test_at(root, files);
    let c = collect_some(f, 0, hi);
    let prev = collect_some(f, 0, hi - 1);
    let last: Seq<FindingView> = match f(hi - 1) {
        Some(y) => seq![y],
        None => Seq::empty(),
    };
    assert(c == prev + last);
    if b < prev.len() {
        lemma_reported_once_upto(root, files, hi - 1, a, b);
        assert(c[a] == prev[a] && c[b] == prev[b]);
    } else {
        let x = f(hi - 1).unwrap();
        assert(c[b] == x);
        lemma_finding_path(root, files, hi - 1, x);
        let y = prev[a];
        assert(c[a] == y);
        assert(prev.contains(y));
        lemma_collect_some_contains(f, 0, hi - 1, y);
        let j = choose|j: int| 0 <= j < hi - 1 && #[trigger] f(j) == Some(y);
        lemma_finding_path(root, files, j, y);
        if components(y.file_path) == components(x.file_path) {
            assert(components(files[j].path) == components(files[hi - 1].path));
            assert(seen_before(files, hi - 1));
        }
    }
}

/// Each file is reported at most once: no two findings name the same path,
/// component by component.
pub proof fn lemma_reported_once(root: Seq<char>, files: Seq<SourceFileView>, a: int, b: int)
    requires
        0 <= a < b < missing_test_findings(root, files).len(),
    ensures
        components(missing_test_findings(root, files)[a].file_path)
            != components(missing_test_findings(root, files)[b].file_path),
{
    lemma_reported_once_upto(root, files, files.len() as int, a, b);
}

} // verus!
