//! Functions that take too many parameters.
use vstd::prelude::*;
use crate::syntax::{
    SyntaxTree, collect_some, sum_of, ints, lemma_sum_le, lemma_sum_le_len, lemma_sum_step,
    first_identifier_text, opt_int, opt_view,
};
use crate::text::{decimal, decimal_string};
use super::{Detector, Finding, FindingView, Severity, graded, views};

verus! {

broadcast use vstd::string::group_string_axioms;

pub const MAY_THRESHOLD: usize = 4;
pub const SHOULD_THRESHOLD: usize = 6;
pub const MUST_THRESHOLD: usize = 9;

pub struct LongParameterListDetector;

/// The node kinds that stand for functions in the supported grammars.
pub open spec fn is_function_kind(k: Seq<char>) -> bool {
    k == "function_item"@ || k == "function_definition"@ || k == "function_declaration"@
        || k == "method_declaration"@
}

/// The `parameters` field of the first `function_signature` among `cs` that has one.
pub open spec fn signature_parameters(t: SyntaxTree, cs: Seq<int>) -> Option<int>
    decreases cs.len(),
{
    if cs.len() == 0 {
        None
    } else if t.kind(cs[0]) == "function_signature"@ && t.field_child(cs[0], "parameters"@) is Some {
        t.field_child(cs[0], "parameters"@)
    } else {
        signature_parameters(t, cs.drop_first())
    }
}

/// The parameter list of function node `i`: its own `parameters` field, or
/// that of a `function_signature` child.
pub open spec fn parameters_node(t: SyntaxTree, i: int) -> Option<int> {
    match t.field_child(i, "parameters"@) {
        Some(p) => Some(p),
        None => signature_parameters(t, t.children(i)),
    }
}

pub open spec fn identifier_flags(t: SyntaxTree) -> spec_fn(int) -> nat {
    |c: int| if t.kind(c) == "identifier"@ { 1nat } else { 0nat }
}

pub open spec fn named_flags(t: SyntaxTree) -> spec_fn(int) -> nat {
    |c: int| if t.named(c) { 1nat } else { 0nat }
}

/// The `identifier` children of node `x`.
pub open spec fn identifier_count(t: SyntaxTree, x: int) -> nat {
    sum_of(t.children(x), identifier_flags(t))
}

/// What each child of a parameter list contributes when the list holds
/// Go-style `parameter_declaration`s.
pub open spec fn parameter_terms(t: SyntaxTree) -> spec_fn(int) -> nat {
    |c: int| if t.kind(c) == "parameter_declaration"@ {
        identifier_count(t, c)
    } else if t.named(c) {
        1nat
    } else {
        0nat
    }
}

pub open spec fn has_declaration_child(t: SyntaxTree, p: int) -> bool {
    exists|k: int| 0 <= k < t.children(p).len() && t.kind(#[trigger] t.children(p)[k]) == "parameter_declaration"@
}

/// The number of parameters in list `p`: with Go-style declarations, the
/// identifiers they declare plus the other named children; otherwise the
/// named children.
pub open spec fn parameter_count(t: SyntaxTree, p: int) -> nat {
    if has_declaration_child(t, p) {
        sum_of(t.children(p), parameter_terms(t))
    } else {
        sum_of(t.children(p), named_flags(t))
    }
}

/// Summing one for each named node counts the named nodes.
proof fn lemma_named_sum(t: SyntaxTree, s: Seq<int>)
    ensures
        sum_of(s, named_flags(t)) == s.filter(|c: int| t.named(c)).len(),
    decreases s.len(),
{
    reveal(Seq::filter);
    if s.len() > 0 {
        lemma_named_sum(t, s.drop_last());
        lemma_sum_last(s, named_flags(t));
    }
}

/// A sum splits into the sum before the last element and the last term.
proof fn lemma_sum_last(s: Seq<int>, f: spec_fn(int) -> nat)
    requires
        s.len() > 0,
    ensures
        sum_of(s, f) == sum_of(s.drop_last(), f) + f(s.last()),
    decreases s.len(),
{
    if s.len() > 1 {
        let r = s.drop_first();
        lemma_sum_last(r, f);
        assert(r.drop_last() =~= s.drop_last().drop_first());
        assert(s.drop_last()[0] == s[0]);
    } else {
        assert(s.drop_last() =~= Seq::<int>::empty());
        assert(s.drop_first() =~= Seq::<int>::empty());
    }
}

/// Without Go-style `parameter_declaration` children, the parameters of a
/// list are its named children: punctuation such as brackets and commas
/// is not counted.
pub proof fn lemma_parameter_count_is_named_children(t: SyntaxTree, p: int)
    requires
        forall|k: int| 0 <= k < t.children(p).len() ==> t.kind(#[trigger] t.children(p)[k]) != "parameter_declaration"@,
    ensures
        parameter_count(t, p) == t.children(p).filter(|c: int| t.named(c)).len(),
{
    lemma_named_sum(t, t.children(p));
}

pub open spec fn parameter_count_of(t: SyntaxTree, i: int) -> nat {
    match parameters_node(t, i) {
        Some(p) => parameter_count(t, p),
        None => 0,
    }
}

/// The first child among `cs` that has an `identifier` child with known text,
/// and that text.
pub open spec fn nested_identifier_text(t: SyntaxTree, cs: Seq<int>) -> Option<Seq<char>>
    decreases cs.len(),
{
    if cs.len() == 0 {
        None
    } else if first_identifier_text(t, t.children(cs[0])) is Some {
        first_identifier_text(t, t.children(cs[0]))
    } else {
        nested_identifier_text(t, cs.drop_first())
    }
}

/// The name of function node `i`: an `identifier` child, else an
/// `identifier` grandchild, else `<anonymous>`.
pub open spec fn function_name(t: SyntaxTree, i: int) -> Seq<char> {
    match first_identifier_text(t, t.children(i)) {
        Some(n) => n,
        None => match nested_identifier_text(t, t.children(i)) {
            Some(n) => n,
            None => "<anonymous>"@,
        },
    }
}

pub open spec fn long_parameter_finding(t: SyntaxTree, file: Seq<char>, i: int) -> Option<FindingView> {
    if is_function_kind(t.kind(i)) {
        let n = parameter_count_of(t, i);
        match graded(n as int, 4, 6, 9) {
            Some(sev) => Some(FindingView {
                file_path: file,
                line: t.line(i),
                column: 1,
                severity: sev,
                rule_id: "long-parameter-list"@,
                message: "函数 `"@ + function_name(t, i) + "` 有 "@ + decimal(n) + " 个参数"@,
            }),
            None => None,
        }
    } else {
        None
    }
}

pub open spec fn long_parameter_at(t: SyntaxTree, file: Seq<char>) -> spec_fn(int) -> Option<FindingView> {
    |i: int| long_parameter_finding(t, file, i)
}

/// The findings of the rule over the whole tree, in pre-order.
pub open spec fn long_parameter_findings(t: SyntaxTree, file: Seq<char>) -> Seq<FindingView> {
    collect_some(long_parameter_at(t, file), 0, t.len())
}

/// `Must` above 9 parameters, `Should` above 6, `May` above 4.
pub fn classify(count: usize) -> (r: Option<Severity>)
    ensures
        r == graded(count as int, 4, 6, 9),
{
    if count > MUST_THRESHOLD {
        Some(Severity::Must)
    } else if count > SHOULD_THRESHOLD {
        Some(Severity::Should)
    } else if count > MAY_THRESHOLD {
        Some(Severity::May)
    } else {
        None
    }
}

/// The parameter list of function node `i`.
pub fn find_parameters_node(tree: &SyntaxTree, i: usize) -> (r: Option<usize>)
    requires
        tree.wf(),
        i < tree.len(),
    ensures
        opt_int(r) == parameters_node(*tree, i as int),
        r matches Some(p) ==> p < tree.len(),
{
    if let Some(params) = tree.child_by_field(i, "parameters") {
        return Some(params);
    }
    let cs = tree.children_of(i);
    let ghost all = ints(cs@);
    assert(all.subrange(0, all.len() as int) =~= all);
    let mut k: usize = 0;
    while k < cs.len()
        invariant
            tree.wf(),
            k <= cs@.len(),
            all == ints(cs@),
            all == tree.children(i as int),
            forall|m: int| 0 <= m < cs@.len() ==> #[trigger] cs@[m] < tree.len(),
            tree.field_child(i as int, "parameters"@) is None,
            signature_parameters(*tree, all) == signature_parameters(*tree, all.subrange(k as int, all.len() as int)),
        decreases cs@.len() - k,
    {
        let c = cs[k];
        let ghost rest = all.subrange(k as int, all.len() as int);
        assert(rest[0] == c as int);
        assert(rest.drop_first() =~= all.subrange(k + 1, all.len() as int));
        if tree.kind_is(c, "function_signature") {
            if let Some(params) = tree.child_by_field(c, "parameters") {
                return Some(params);
            }
        }
        k = k + 1;
    }
    assert(all.subrange(k as int, all.len() as int).len() == 0);
    None
}

/// The `identifier` children of node `x`.
pub fn count_identifiers_in_node(tree: &SyntaxTree, x: usize) -> (r: usize)
    requires
        tree.wf(),
        x < tree.len(),
    ensures
        r == identifier_count(*tree, x as int),
{
    let cs = tree.children_of(x);
    let ghost all = ints(cs@);
    let ghost g = identifier_flags(*tree);
    proof {
        lemma_sum_le_len(all, g);
        tree.lemma_chain_len(x + 1, tree.end(x as int));
        assert(all.skip(0) =~= all);
    }
    let mut count: usize = 0;
    let mut k: usize = 0;
    while k < cs.len()
        invariant
            tree.wf(),
            k <= cs@.len(),
            all == ints(cs@),
            all == tree.children(x as int),
            g == identifier_flags(*tree),
            forall|m: int| 0 <= m < cs@.len() ==> #[trigger] cs@[m] < tree.len(),
            count + sum_of(all.skip(k as int), g) == sum_of(all, g),
            sum_of(all, g) <= cs@.len(),
        decreases cs@.len() - k,
    {
        let c = cs[k];
        proof {
            lemma_sum_step(all, g, k as int);
            assert(all[k as int] == c as int);
        }
        if tree.kind_is(c, "identifier") {
            count = count + 1;
        }
        k = k + 1;
    }
    count
}

/// The named children of node `x`.
pub fn named_child_count(tree: &SyntaxTree, x: usize) -> (r: usize)
    requires
        tree.wf(),
        x < tree.len(),
    ensures
        r == sum_of(tree.children(x as int), named_flags(*tree)),
{
    let cs = tree.children_of(x);
    let ghost all = ints(cs@);
    let ghost g = named_flags(*tree);
    proof {
        lemma_sum_le_len(all, g);
        assert(all.skip(0) =~= all);
    }
    let mut count: usize = 0;
    let mut k: usize = 0;
    while k < cs.len()
        invariant
            tree.wf(),
            k <= cs@.len(),
            all == ints(cs@),
            all == tree.children(x as int),
            g == named_flags(*tree),
            forall|m: int| 0 <= m < cs@.len() ==> #[trigger] cs@[m] < tree.len(),
            count + sum_of(all.skip(k as int), g) == sum_of(all, g),
            sum_of(all, g) <= cs@.len(),
        decreases cs@.len() - k,
    {
        let c = cs[k];
        proof {
            lemma_sum_step(all, g, k as int);
            assert(all[k as int] == c as int);
        }
        if tree.nodes[c].named {
            count = count + 1;
        }
        k = k + 1;
    }
    count
}

/// The number of parameters in list `p`.
pub fn count_params(tree: &SyntaxTree, p: usize) -> (r: usize)
    requires
        tree.wf(),
        p < tree.len(),
    ensures
        r == parameter_count(*tree, p as int),
{
    let cs = tree.children_of(p);
    let ghost all = ints(cs@);
    let ghost f = parameter_terms(*tree);
    proof {
        assert forall|k: int| 0 <= k < all.len() implies f(all[k]) <= tree.child_counts()(all[k]) by {
            let c = all[k];
            if tree.kind(c) == "parameter_declaration"@ {
                lemma_sum_le_len(tree.children(c), identifier_flags(*tree));
            }
        }
        lemma_sum_le(all, f, tree.child_counts());
        tree.lemma_grandchildren(p as int);
        assert(all.skip(0) =~= all);
    }
    let mut has_go_style = false;
    let mut count: usize = 0;
    let mut k: usize = 0;
    while k < cs.len()
        invariant
            tree.wf(),
            k <= cs@.len(),
            all == ints(cs@),
            all == tree.children(p as int),
            f == parameter_terms(*tree),
            forall|m: int| 0 <= m < cs@.len() ==> #[trigger] cs@[m] < tree.len(),
            count + sum_of(all.skip(k as int), f) == sum_of(all, f),
            sum_of(all, f) < tree.len(),
            has_go_style == exists|m: int| 0 <= m < k && tree.kind(#[trigger] all[m]) == "parameter_declaration"@,
        decreases cs@.len() - k,
    {
        let c = cs[k];
        proof {
            lemma_sum_step(all, f, k as int);
            assert(all[k as int] == c as int);
        }
        if tree.kind_is(c, "parameter_declaration") {
            has_go_style = true;
            count = count + count_identifiers_in_node(tree, c);
        } else if tree.nodes[c].named {
            count = count + 1;
        }
        k = k + 1;
    }
    if !has_go_style {
        count = named_child_count(tree, p);
    }
    count
}

/// The text of the first `identifier` child of `x` whose text is known.
pub fn find_identifier_in_children(tree: &SyntaxTree, x: usize) -> (r: Option<String>)
    requires
        tree.wf(),
        x < tree.len(),
    ensures
        opt_view(r) == first_identifier_text(*tree, tree.children(x as int)),
{
    let cs = tree.children_of(x);
    tree.first_identifier_among(&cs)
}

/// The name of function node `i`.
pub fn extract_function_name(tree: &SyntaxTree, i: usize) -> (r: String)
    requires
        tree.wf(),
        i < tree.len(),
    ensures
        r@ == function_name(*tree, i as int),
{
    match find_identifier_in_children(tree, i) {
        Some(name) => {
            assert(first_identifier_text(*tree, tree.children(i as int)) == Some(name@));
            return name;
        },
        None => {},
    }
    let cs = tree.children_of(i);
    let ghost all = ints(cs@);
    assert(all.subrange(0, all.len() as int) =~= all);
    let mut k: usize = 0;
    while k < cs.len()
        invariant
            tree.wf(),
            k <= cs@.len(),
            all == ints(cs@),
            all == tree.children(i as int),
            forall|m: int| 0 <= m < cs@.len() ==> #[trigger] cs@[m] < tree.len(),
            first_identifier_text(*tree, all) is None,
            nested_identifier_text(*tree, all) == nested_identifier_text(*tree, all.subrange(k as int, all.len() as int)),
        decreases cs@.len() - k,
    {
        let c = cs[k];
        let ghost rest = all.subrange(k as int, all.len() as int);
        assert(rest[0] == c as int);
        assert(rest.drop_first() =~= all.subrange(k + 1, all.len() as int));
        match find_identifier_in_children(tree, c) {
            Some(name) => {
                assert(nested_identifier_text(*tree, rest) == Some(name@));
                return name;
            },
            None => {},
        }
        k = k + 1;
    }
    assert(all.subrange(k as int, all.len() as int).len() == 0);
    "<anonymous>".to_string()
}

impl Detector for LongParameterListDetector {
    fn rule_id(&self) -> (r: &'static str)
        ensures
            r@ == "long-parameter-list"@,
    {
        "long-parameter-list"
    }

    fn description(&self) -> (r: &'static str)
        ensures
            r@ == "参数列表过长"@,
    {
        "参数列表过长"
    }

    fn detect(&self, source: &str, tree: &SyntaxTree, file_path: &str) -> (r: Vec<Finding>)
        ensures
            views(r@) == long_parameter_findings(*tree, file_path@),
    {
        let ghost f = long_parameter_at(*tree, file_path@);
        let mut findings: Vec<Finding> = Vec::new();
        let n = tree.nodes.len();
        let mut i: usize = 0;
        while i < n
            invariant
                tree.wf(),
                n == tree.len(),
                i <= n,
                f == long_parameter_at(*tree, file_path@),
                views(findings@) == collect_some(f, 0, i as int),
            decreases n - i,
        {
            assert(tree.node_ok(i as int));
            if tree.kind_is(i, "function_item") || tree.kind_is(i, "function_definition")
                || tree.kind_is(i, "function_declaration") || tree.kind_is(i, "method_declaration") {
                let param_count = match find_parameters_node(tree, i) {
                    Some(p) => count_params(tree, p),
                    None => 0,
                };
                if let Some(severity) = classify(param_count) {
                    let name = extract_function_name(tree, i);
                    let mut message = "函数 `".to_string();
                    message.append(name.as_str());
                    message.append("` 有 ");
                    message.append(decimal_string(param_count).as_str());
                    message.append(" 个参数");
                    findings.push(Finding {
                        file_path: file_path.to_string(),
                        line: tree.nodes[i].start_row + 1,
                        column: 1,
                        severity,
                        rule_id: self.rule_id().to_string(),
                        message,
                    });
                }
            }
            assert(views(findings@) =~= collect_some(f, 0, i + 1));
            i = i + 1;
        }
        findings
    }
}

} // verus!
