//! One step of a directory scan: which files are taken, what the rules find
//! in one parsed file, and the listing of the rules.
use vstd::prelude::*;
use crate::detect::{Detector, Finding, views};
use crate::detect::unsafe_block::{UnsafeBlockDetector, wide_unsafe_findings};
use crate::detect::long_function::{LongFunctionDetector, long_function_findings};
use crate::lang::{LanguageParser, RustParser};
use crate::paths::{components, file_name_of, extension_of_name, path_components, file_name, extension_of};
use crate::syntax::{SyntaxTree, opt_int};
use crate::lang::backend::{models_nodes, parse_nodes, Grammar};
use crate::text::{str_equal, string_views};

verus! {

broadcast use vstd::string::group_string_axioms;

/// The extension of the file that a path names.
pub open spec fn path_extension(p: Seq<char>) -> Option<Seq<char>> {
    match file_name_of(components(p)) {
        Some(n) => extension_of_name(n),
        None => None,
    }
}

/// Whether the extension of the file that `p` names is one of `exts`.
pub open spec fn extension_listed(p: Seq<char>, exts: Seq<Seq<char>>) -> bool {
    exists|k: int| 0 <= k < exts.len() && path_extension(p) == Some(#[trigger] exts[k])
}

/// Whether the extension of the file that `path` names is one of `exts`.
pub fn has_listed_extension(path: &str, exts: &[&str]) -> (r: bool)
    ensures
        r == extension_listed(path@, exts@.map_values(|e: &str| e@)),
{
    let ghost es = exts@.map_values(|e: &str| e@);
    let cs = path_components(path);
    let name = match file_name(&cs) {
        Some(n) => n,
        None => return false,
    };
    let ext = match extension_of(name.as_str()) {
        Some(e) => e,
        None => return false,
    };
    assert(path_extension(path@) == Some(ext@));
    let mut k: usize = 0;
    while k < exts.len()
        invariant
            k <= exts@.len(),
            es == exts@.map_values(|e: &str| e@),
            path_extension(path@) == Some(ext@),
            forall|m: int| 0 <= m < k ==> es[m] != ext@,
        decreases exts@.len() - k,
    {
        if str_equal(ext.as_str(), exts[k]) {
            assert(es[k as int] == ext@);
            return true;
        }
        k = k + 1;
    }
    false
}

/// What the scan's rules find in one parsed file: the wide `unsafe` blocks,
/// then the long functions.
pub open spec fn scan_findings(tree: SyntaxTree, path: Seq<char>) -> Seq<crate::detect::FindingView> {
    wide_unsafe_findings(tree, path) + long_function_findings(tree, path)
}

/// Runs the scan's rules over one parsed file.
pub fn findings_in_tree(source: &str, tree: &SyntaxTree, path: &str) -> (r: Vec<Finding>)
    requires
        tree.wf(),
    ensures
        views(r@) == scan_findings(*tree, path@),
{
    let mut all = UnsafeBlockDetector.detect(source, tree, path);
    let mut more = LongFunctionDetector.detect(source, tree, path);
    let ghost a = all@;
    let ghost b = more@;
    all.append(&mut more);
    assert(all@ == a + b);
    assert(views(a + b) =~= views(a) + views(b));
    all
}

/// Parses one Rust file and runs the scan's rules over the plain form of
/// the tree that tree-sitter builds for it (the parse always succeeds).
pub fn scan_source(parser: &mut RustParser, path: &str, source: &str) -> (r: Option<Vec<Finding>>)
    ensures
        r matches Some(v) && exists|t: SyntaxTree|
            #![trigger scan_findings(t, path@)]
            models_nodes(t, parse_nodes(Grammar::Rust, source@), source@) && views(v@) == scan_findings(t, path@),
{
    let parsed = parser.parse(path, source)?;
    let v = findings_in_tree(parsed.source.as_str(), &parsed.tree, path);
    assert(views(v@) == scan_findings(parsed.tree, path@));
    Some(v)
}

/// The position of the first `true` in `v` at or after `k`.
pub open spec fn first_true_from(v: Seq<bool>, k: int) -> Option<int>
    decreases v.len() - k,
{
    if k < 0 || k >= v.len() {
        None
    } else if v[k] {
        Some(k)
    } else {
        first_true_from(v, k + 1)
    }
}

/// The project root of a path: given, for the path and each directory
/// above it (nearest first), whether it holds a `Cargo.toml`, the position
/// of the nearest that does.
pub fn project_root_of(has_cargo: &Vec<bool>) -> (r: Option<usize>)
    ensures
        opt_int(r) == first_true_from(has_cargo@, 0),
{
    let mut k: usize = 0;
    while k < has_cargo.len()
        invariant
            k <= has_cargo@.len(),
            first_true_from(has_cargo@, 0) == first_true_from(has_cargo@, k as int),
        decreases has_cargo@.len() - k,
    {
        if has_cargo[k] {
            return Some(k);
        }
        k = k + 1;
    }
    None
}

/// The listing of the rules that a scan applies, one line each.
pub open spec fn rule_listing_text() -> Seq<char> {
    "可用检测规则:\n  rust-wide-unsafe — unsafe 块包含过多语句\n  long-function — 函数体过长\n"@
}

/// The listing of the rules that a scan applies: each rule's id and what it
/// looks for.
pub fn rule_listing() -> (r: String)
    ensures
        r@ == rule_listing_text(),
{
    let mut out = "可用检测规则:\n".to_string();
    out.append("  ");
    out.append(UnsafeBlockDetector.rule_id());
    out.append(" — ");
    out.append(UnsafeBlockDetector.description());
    out.append("\n");
    out.append("  ");
    out.append(LongFunctionDetector.rule_id());
    out.append(" — ");
    out.append(LongFunctionDetector.description());
    out.append("\n");
    proof {
        reveal_strlit("可用检测规则:\n");
        reveal_strlit("  ");
        reveal_strlit(" — ");
        reveal_strlit("\n");
        reveal_strlit("rust-wide-unsafe");
        reveal_strlit("unsafe 块包含过多语句");
        reveal_strlit("long-function");
        reveal_strlit("函数体过长");
        reveal_strlit("可用检测规则:\n  rust-wide-unsafe — unsafe 块包含过多语句\n  long-function — 函数体过长\n");
    }
    assert(out@ =~= rule_listing_text());
    out
}

} // verus!
