//! Functions that nothing in the same file calls.
use vstd::prelude::*;
use crate::syntax::{SyntaxTree, collect_some, lemma_collect_some_contains, opt_int};
use crate::text::{str_equal, contains_str};
use crate::lang::backend::{syntax_tree_from, models};

verus! {

broadcast use vstd::string::group_string_axioms;

pub const RULE_ID: &'static str = "dead-code";
pub const DESCRIPTION: &'static str = "未被调用的函数";

/// A function that is never called, with the line on which it starts.
pub struct DeadFunc {
    pub name: String,
    pub line: usize,
}

/// The name and line of node `i` when it is a named `function_item` whose
/// `name` field has a known text.
pub open spec fn function_def(t: SyntaxTree, i: int) -> Option<(Seq<char>, int)> {
    if t.named(i) && t.kind(i) == "function_item"@ {
        match t.field_child(i, "name"@) {
            Some(c) => match t.text(c) {
                Some(n) => Some((n, t.line(i))),
                None => None,
            },
            None => None,
        }
    } else {
        None
    }
}

/// The node that a call names: its `function` field, or else its first
/// named `identifier` child.
pub open spec fn callee_node(t: SyntaxTree, i: int) -> Option<int> {
    match t.field_child(i, "function"@) {
        Some(c) => Some(c),
        None => t.named_child_of_kind(i, "identifier"@),
    }
}

/// The name that node `i` calls, when it is a named `call_expression`
/// whose callee has a known text.
pub open spec fn callee_name(t: SyntaxTree, i: int) -> Option<Seq<char>> {
    if t.named(i) && t.kind(i) == "call_expression"@ {
        match callee_node(t, i) {
            Some(c) => t.text(c),
            None => None,
        }
    } else {
        None
    }
}

/// Some call in the tree names `name`.
pub open spec fn is_called(t: SyntaxTree, name: Seq<char>) -> bool {
    exists|j: int| 0 <= j < t.len() && #[trigger] callee_name(t, j) == Some(name)
}

pub open spec fn callee_at(t: SyntaxTree) -> spec_fn(int) -> Option<Seq<char>> {
    |i: int| callee_name(t, i)
}

/// A function defined at node `i` that is never called and is not `main`.
pub open spec fn dead_at(t: SyntaxTree) -> spec_fn(int) -> Option<(Seq<char>, int)> {
    |i: int| match function_def(t, i) {
        Some(d) => if !is_called(t, d.0) && d.0 != "main"@ { Some(d) } else { None },
        None => None,
    }
}

/// The functions that nothing calls, in the order they are defined.
pub open spec fn dead_functions(t: SyntaxTree) -> Seq<(Seq<char>, int)> {
    collect_some(dead_at(t), 0, t.len())
}

/// A function is reported dead exactly when the tree defines it, it is
/// not `main`, and no call anywhere in the tree, before or after its
/// definition, names it.
pub proof fn lemma_dead_exactly_uncalled(t: SyntaxTree, name: Seq<char>, line: int)
    ensures
        dead_functions(t).contains((name, line)) <==> {
            &&& exists|i: int| 0 <= i < t.len() && #[trigger] function_def(t, i) == Some((name, line))
            &&& name != "main"@
            &&& forall|j: int| 0 <= j < t.len() ==> #[trigger] callee_name(t, j) != Some(name)
        },
{
    lemma_collect_some_contains(dead_at(t), 0, t.len(), (name, line));
    if dead_functions(t).contains((name, line)) {
        let i = choose|i: int| 0 <= i < t.len() && #[trigger] dead_at(t)(i) == Some((name, line));
        assert(function_def(t, i) == Some((name, line)));
    }
    if (exists|i: int| 0 <= i < t.len() && #[trigger] function_def(t, i) == Some((name, line)))
        && name != "main"@ && (forall|j: int| 0 <= j < t.len() ==> #[trigger] callee_name(t, j) != Some(name)) {
        let i = choose|i: int| 0 <= i < t.len() && #[trigger] function_def(t, i) == Some((name, line));
        assert(!is_called(t, name));
        assert(dead_at(t)(i) == Some((name, line)));
    }
}

/// The view of a list of dead functions.
pub open spec fn dead_views(v: Seq<DeadFunc>) -> Seq<(Seq<char>, int)> {
    v.map_values(|d: DeadFunc| (d.name@, d.line as int))
}

/// Every node of the tree, in pre-order.
pub fn walk_all(tree: &SyntaxTree) -> (r: Vec<usize>)
    ensures
        r@.len() == tree.len(),
        forall|k: int| 0 <= k < r@.len() ==> #[trigger] r@[k] == k,
{
    let mut r: Vec<usize> = Vec::new();
    let mut i: usize = 0;
    while i < tree.nodes.len()
        invariant
            i <= tree.len(),
            r@.len() == i,
            forall|k: int| 0 <= k < i ==> #[trigger] r@[k] == k,
        decreases tree.len() - i,
    {
        r.push(i);
        i = i + 1;
    }
    r
}

/// The name that node `i` calls, if it is a call.
pub fn call_name(tree: &SyntaxTree, i: usize) -> (r: Option<String>)
    requires
        tree.wf(),
        i < tree.len(),
    ensures
        opt_view_of(r) == callee_name(*tree, i as int),
{
    if tree.nodes[i].named && tree.kind_is(i, "call_expression") {
        let c = match tree.child_by_field(i, "function") {
            Some(c) => Some(c),
            None => tree.first_named_child_of_kind(i, "identifier"),
        };
        assert(opt_int(c) == callee_node(*tree, i as int));
        match c {
            Some(c) => tree.text_of(c),
            None => None,
        }
    } else {
        None
    }
}

/// The view of an optional string.
pub open spec fn opt_view_of(o: Option<String>) -> Option<Seq<char>> {
    match o {
        Some(s) => Some(s@),
        None => None,
    }
}

/// The names of all the calls in the tree, in pre-order.
fn all_callees(tree: &SyntaxTree) -> (r: Vec<String>)
    requires
        tree.wf(),
    ensures
        r@.map_values(|s: String| s@) == collect_some(callee_at(*tree), 0, tree.len()),
{
    let ghost f = callee_at(*tree);
    let mut r: Vec<String> = Vec::new();
    let mut i: usize = 0;
    while i < tree.nodes.len()
        invariant
            tree.wf(),
            i <= tree.len(),
            f == callee_at(*tree),
            r@.map_values(|s: String| s@) == collect_some(f, 0, i as int),
        decreases tree.len() - i,
    {
        match call_name(tree, i) {
            Some(n) => {
                r.push(n);
            },
            None => {},
        }
        assert(r@.map_values(|s: String| s@) =~= collect_some(f, 0, i + 1));
        i = i + 1;
    }
    r
}

/// The functions of `tree` that no call in it names, except `main`, in the
/// order they are defined.
pub fn dead_functions_in(tree: &SyntaxTree) -> (r: Vec<DeadFunc>)
    requires
        tree.wf(),
    ensures
        dead_views(r@) == dead_functions(*tree),
{
    let callees = all_callees(tree);
    let ghost f = dead_at(*tree);
    let mut r: Vec<DeadFunc> = Vec::new();
    let mut i: usize = 0;
    while i < tree.nodes.len()
        invariant
            tree.wf(),
            i <= tree.len(),
            f == dead_at(*tree),
            callees@.map_values(|s: String| s@) == collect_some(callee_at(*tree), 0, tree.len()),
            dead_views(r@) == collect_some(f, 0, i as int),
        decreases tree.len() - i,
    {
        assert(tree.node_ok(i as int));
        if tree.nodes[i].named && tree.kind_is(i, "function_item") {
            match tree.child_by_field(i, "name") {
                Some(c) => match tree.text_of(c) {
                    Some(name) => {
                        let called = contains_str(&callees, name.as_str());
                        proof {
                            let g = callee_at(*tree);
                            lemma_collect_some_contains(g, 0, tree.len(), name@);
                            if called {
                                let j = choose|j: int| 0 <= j < tree.len() && #[trigger] g(j) == Some(name@);
                                assert(callee_name(*tree, j) == Some(name@));
                            } else {
                                assert forall|j: int| 0 <= j < tree.len() implies
                                    #[trigger] callee_name(*tree, j) != Some(name@) by {
                                    assert(g(j) == callee_name(*tree, j));
                                }
                            }
                        }
                        if !called && !str_equal(name.as_str(), "main") {
                            r.push(DeadFunc { name, line: tree.nodes[i].start_row + 1 });
                        }
                    },
                    None => {},
                },
                None => {},
            }
        }
        assert(dead_views(r@) =~= collect_some(f, 0, i + 1));
        i = i + 1;
    }
    r
}

/// The functions of a parsed file that nothing in the file calls, `main`
/// aside.
pub fn check_dead_code(source: &str, tree: &tree_sitter::Tree) -> (r: Vec<DeadFunc>)
    ensures
        exists|t: SyntaxTree| models(t, *tree, source@)
            && dead_views(r@) == #[trigger] dead_functions(t),
{
    match syntax_tree_from(tree, source) {
        Some(t) => dead_functions_in(&t),
        None => Vec::new(),
    }
}

} // verus!
