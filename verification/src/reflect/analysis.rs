//! Forward slices, call graphs, change impact, searches by node kind and
//! the type annotations of `let` bindings.
use vstd::prelude::*;
use crate::syntax::{SyntaxTree, collect_some, opt_view, opt_int};
use crate::text::{str_equal, string_views, lemma_views_push, contains_str};
use crate::detect::dead_code::{function_def, callee_name, call_name};
use crate::refactor::rename::{first_occurrences, lemma_first_occurrences_contains};
use crate::lang::backend::{syntax_tree_from, models};
use super::{
    SliceEntry, entry_view, entry_views, lemma_entries_push, sort_entries_by_line, sort_views,
    lemma_sort_views,
};
use super::slice::function_name_of;

verus! {

broadcast use vstd::string::group_string_axioms;

/// The name that the first `let` on line `line` declares, from node `k` on
/// in pre-order: its first named identifier child with a known text.
pub open spec fn def_name_from(t: SyntaxTree, line: int, k: int) -> Option<Seq<char>>
    decreases t.len() - k,
{
    if k < 0 || k >= t.len() {
        None
    } else if t.named(k) && t.kind(k) == "let_declaration"@ && t.line(k) == line
        && t.named_child_of_kind(k, "identifier"@) is Some
        && t.text(t.named_child_of_kind(k, "identifier"@).unwrap()) is Some {
        t.text(t.named_child_of_kind(k, "identifier"@).unwrap())
    } else {
        def_name_from(t, line, k + 1)
    }
}

pub open spec fn def_name_at(t: SyntaxTree, line: int) -> Option<Seq<char>> {
    def_name_from(t, line, 0)
}

/// The name that a `let` on line `line` declares.
pub fn extract_def_name_at_line(t: &SyntaxTree, line: usize) -> (r: Option<String>)
    requires
        t.wf(),
    ensures
        opt_view(r) == def_name_at(*t, line as int),
{
    let mut k: usize = 0;
    while k < t.nodes.len()
        invariant
            t.wf(),
            k <= t.len(),
            def_name_at(*t, line as int) == def_name_from(*t, line as int, k as int),
        decreases t.len() - k,
    {
        assert(t.node_ok(k as int));
        let n = &t.nodes[k];
        if n.named && t.kind_is(k, "let_declaration") && n.start_row + 1 == line {
            match t.first_named_child_of_kind(k, "identifier") {
                Some(c) => match t.text_of(c) {
                    Some(name) => {
                        return Some(name);
                    },
                    None => {},
                },
                None => {},
            }
        }
        k = k + 1;
    }
    None
}

/// The use of `name` at node `j`, away from line `def_line`.
pub open spec fn usage_at(t: SyntaxTree, file: Seq<char>, name: Seq<char>, def_line: int) -> spec_fn(int) -> Option<(Seq<char>, int, Seq<char>)> {
    |j: int| if t.named(j) && t.kind(j) == "identifier"@ && t.text(j) == Some(name) && t.line(j) != def_line {
        Some((file, t.line(j), name))
    } else {
        None
    }
}

/// The forward slice from line `def_line`: every other use of the name
/// that a `let` on that line declares, ordered by line (pre-order on the
/// same line). Empty when no `let` on the line declares a name.
pub open spec fn forward_slice_spec(t: SyntaxTree, file: Seq<char>, def_line: int) -> Seq<(Seq<char>, int, Seq<char>)> {
    match def_name_at(t, def_line) {
        Some(name) => sort_views(collect_some(usage_at(t, file, name, def_line), 0, t.len())),
        None => Seq::empty(),
    }
}

/// The forward slice of `t`, the tree of `file`, from line `def_line`.
pub fn forward_slice_in(t: &SyntaxTree, file: &str, def_line: usize) -> (r: Vec<SliceEntry>)
    requires
        t.wf(),
    ensures
        entry_views(r@) == forward_slice_spec(*t, file@, def_line as int),
{
    let name = match extract_def_name_at_line(t, def_line) {
        Some(n) => n,
        None => {
            return Vec::new();
        },
    };
    let ghost f = usage_at(*t, file@, name@, def_line as int);
    let mut found: Vec<SliceEntry> = Vec::new();
    let mut j: usize = 0;
    while j < t.nodes.len()
        invariant
            t.wf(),
            j <= t.len(),
            f == usage_at(*t, file@, name@, def_line as int),
            entry_views(found@) == collect_some(f, 0, j as int),
        decreases t.len() - j,
    {
        assert(t.node_ok(j as int));
        let ghost before = found@;
        let n = &t.nodes[j];
        if n.named && t.kind_is(j, "identifier") && n.start_row + 1 != def_line {
            match &n.text {
                Some(text) => {
                    if str_equal(text.as_str(), name.as_str()) {
                        let e = SliceEntry { file: file.to_string(), line: n.start_row + 1, text: text.clone() };
                        found.push(e);
                        proof {
                            lemma_entries_push(before, e);
                        }
                    }
                },
                None => {},
            }
        }
        assert(entry_views(found@) =~= collect_some(f, 0, j + 1));
        j = j + 1;
    }
    let r = sort_entries_by_line(&found);
    proof {
        lemma_sort_views(found@);
    }
    r
}

/// The forward slice of a parsed file from line `def_line`: the other uses
/// of the name declared by a `let` on that line, by line.
pub fn forward_slice(source: &str, tree: &tree_sitter::Tree, file: &str, def_line: usize) -> (r: Vec<SliceEntry>)
    ensures
        exists|t: SyntaxTree| models(t, *tree, source@)
            && entry_views(r@) == #[trigger] forward_slice_spec(t, file@, def_line as int),
{
    match syntax_tree_from(tree, source) {
        Some(t) => forward_slice_in(&t, file, def_line),
        None => Vec::new(),
    }
}

/// A function of the call graph: its name, the line of its first
/// definition, the calls made in it (in order) and the functions that call
/// it.
pub struct CallGraphNode {
    pub name: String,
    pub line: usize,
    pub callees: Vec<String>,
    pub callers: Vec<String>,
}

/// A call-graph node as plain values.
pub open spec fn node_view(n: CallGraphNode) -> (Seq<char>, int, Seq<Seq<char>>, Seq<Seq<char>>) {
    (n.name@, n.line as int, string_views(n.callees@), string_views(n.callers@))
}

/// The name of the first function, in pre-order, that spans line `line`
/// and whose name is known, from node `k` on.
pub open spec fn fn_name_from(t: SyntaxTree, line: int, k: int) -> Option<Seq<char>>
    decreases t.len() - k,
{
    if k < 0 || k >= t.len() {
        None
    } else if t.named(k) && t.kind(k) == "function_item"@ && t.line(k) <= line <= t.end_line(k)
        && function_name_of(t, k) is Some {
        function_name_of(t, k)
    } else {
        fn_name_from(t, line, k + 1)
    }
}

pub open spec fn fn_name_spanning(t: SyntaxTree, line: int) -> Option<Seq<char>> {
    fn_name_from(t, line, 0)
}

/// The name of the first named function that spans line `line`.
pub fn find_containing_function_name_safe(t: &SyntaxTree, line: usize) -> (r: Option<String>)
    requires
        t.wf(),
    ensures
        opt_view(r) == fn_name_spanning(*t, line as int),
{
    let mut k: usize = 0;
    while k < t.nodes.len()
        invariant
            t.wf(),
            k <= t.len(),
            fn_name_spanning(*t, line as int) == fn_name_from(*t, line as int, k as int),
        decreases t.len() - k,
    {
        assert(t.node_ok(k as int));
        let n = &t.nodes[k];
        if n.named && t.kind_is(k, "function_item") && n.start_row + 1 <= line && line <= n.end_row + 1 {
            let name = match t.child_by_field(k, "name") {
                Some(c) => t.text_of(c),
                None => None,
            };
            if name.is_some() {
                return name;
            }
        }
        k = k + 1;
    }
    None
}

/// The caller and callee of the call at node `j`.
pub open spec fn call_pair(t: SyntaxTree) -> spec_fn(int) -> Option<(Seq<char>, Seq<char>)> {
    |j: int| match (fn_name_spanning(t, t.line(j)), callee_name(t, j)) {
        (Some(a), Some(b)) => Some((a, b)),
        _ => None,
    }
}

/// The calls of the tree as caller and callee names, in pre-order.
pub open spec fn call_pairs(t: SyntaxTree) -> Seq<(Seq<char>, Seq<char>)> {
    collect_some(call_pair(t), 0, t.len())
}

/// The name of the function defined at node `i`.
pub open spec fn def_name(t: SyntaxTree) -> spec_fn(int) -> Option<Seq<char>> {
    |i: int| match function_def(t, i) {
        Some(d) => Some(d.0),
        None => None,
    }
}

/// The names of the functions, each once, in the order first defined.
pub open spec fn fn_names(t: SyntaxTree) -> Seq<Seq<char>> {
    first_occurrences(collect_some(def_name(t), 0, t.len()))
}

/// The line of the first definition of `g` from node `k` on.
pub open spec fn def_line_from(t: SyntaxTree, g: Seq<char>, k: int) -> int
    decreases t.len() - k,
{
    if k < 0 || k >= t.len() {
        0
    } else if function_def(t, k) is Some && function_def(t, k).unwrap().0 == g {
        function_def(t, k).unwrap().1
    } else {
        def_line_from(t, g, k + 1)
    }
}

/// The callees of the calls made in `g`, in pre-order.
pub open spec fn callees_of(t: SyntaxTree, g: Seq<char>) -> Seq<Seq<char>> {
    call_pairs(t).filter(|p: (Seq<char>, Seq<char>)| p.0 == g).map_values(|p: (Seq<char>, Seq<char>)| p.1)
}

/// The functions whose calls include `g`.
pub open spec fn callers_of(t: SyntaxTree, g: Seq<char>) -> Seq<Seq<char>> {
    fn_names(t).filter(|h: Seq<char>| callees_of(t, h).contains(g))
}

/// The call graph: one node per function name.
pub open spec fn call_graph_spec(t: SyntaxTree) -> Seq<(Seq<char>, int, Seq<Seq<char>>, Seq<Seq<char>>)> {
    fn_names(t).map_values(|g: Seq<char>| (g, def_line_from(t, g, 0), callees_of(t, g), callers_of(t, g)))
}

/// The views of a list of string pairs.
pub open spec fn pair_views(v: Seq<(String, String)>) -> Seq<(Seq<char>, Seq<char>)> {
    v.map_values(|p: (String, String)| (p.0@, p.1@))
}

/// The strings of `v` without repeats, each where it first occurs.
fn dedup_first(v: &Vec<String>) -> (r: Vec<String>)
    ensures
        string_views(r@) == first_occurrences(string_views(v@)),
{
    let ghost sv = string_views(v@);
    let mut r: Vec<String> = Vec::new();
    let mut i: usize = 0;
    assert(sv.take(0) =~= Seq::<Seq<char>>::empty());
    while i < v.len()
        invariant
            sv == string_views(v@),
            i <= v@.len(),
            string_views(r@) == first_occurrences(sv.take(i as int)),
        decreases v@.len() - i,
    {
        let x = &v[i];
        proof {
            assert(sv.take(i + 1).drop_last() =~= sv.take(i as int));
            assert(sv.take(i + 1).last() == x@);
            lemma_first_occurrences_contains(sv.take(i as int), x@);
        }
        let ghost before = r@;
        if !contains_str(&r, x.as_str()) {
            let y = x.clone();
            r.push(y);
            proof {
                lemma_views_push(before, y);
            }
        }
        i = i + 1;
    }
    assert(sv.take(v@.len() as int) =~= sv);
    r
}

/// The second strings of the pairs whose first string is `g`, in order.
fn seconds_where(pairs: &Vec<(String, String)>, g: &str) -> (r: Vec<String>)
    ensures
        string_views(r@) == pair_views(pairs@).filter(|p: (Seq<char>, Seq<char>)| p.0 == g@)
            .map_values(|p: (Seq<char>, Seq<char>)| p.1),
{
    let ghost pv = pair_views(pairs@);
    let ghost pred = |p: (Seq<char>, Seq<char>)| p.0 == g@;
    let mut r: Vec<String> = Vec::new();
    let mut i: usize = 0;
    assert(pv.take(0).filter(pred) =~= Seq::<(Seq<char>, Seq<char>)>::empty()) by {
        reveal(Seq::filter);
    }
    while i < pairs.len()
        invariant
            pv == pair_views(pairs@),
            pred == (|p: (Seq<char>, Seq<char>)| p.0 == g@),
            i <= pairs@.len(),
            string_views(r@) == pv.take(i as int).filter(pred).map_values(|p: (Seq<char>, Seq<char>)| p.1),
        decreases pairs@.len() - i,
    {
        proof {
            assert(pv.take(i + 1) =~= pv.take(i as int).push(pv[i as int]));
            pv.take(i as int).lemma_filter_push(pv[i as int], pred);
        }
        let ghost before = r@;
        if str_equal(pairs[i].0.as_str(), g) {
            let y = pairs[i].1.clone();
            r.push(y);
            proof {
                lemma_views_push(before, y);
                assert(string_views(r@) =~= pv.take(i + 1).filter(pred).map_values(|p: (Seq<char>, Seq<char>)| p.1));
            }
        }
        i = i + 1;
    }
    assert(pv.take(pairs@.len() as int) =~= pv);
    r
}

/// The call graph of `t`: one node per function name, in the order the
/// functions are first defined.
pub fn build_call_graph_in(t: &SyntaxTree) -> (r: Vec<CallGraphNode>)
    requires
        t.wf(),
    ensures
        r@.map_values(|n: CallGraphNode| node_view(n)) == call_graph_spec(*t),
{
    let ghost fdn = def_name(*t);
    let mut defs: Vec<String> = Vec::new();
    let mut i: usize = 0;
    while i < t.nodes.len()
        invariant
            t.wf(),
            i <= t.len(),
            fdn == def_name(*t),
            string_views(defs@) == collect_some(fdn, 0, i as int),
        decreases t.len() - i,
    {
        assert(t.node_ok(i as int));
        let ghost before = defs@;
        if t.nodes[i].named && t.kind_is(i, "function_item") {
            match t.child_by_field(i, "name") {
                Some(c) => match t.text_of(c) {
                    Some(name) => {
                        defs.push(name);
                        proof {
                            lemma_views_push(before, name);
                        }
                    },
                    None => {},
                },
                None => {},
            }
        }
        assert(string_views(defs@) =~= collect_some(fdn, 0, i + 1));
        i = i + 1;
    }
    let names = dedup_first(&defs);
    let ghost fcp = call_pair(*t);
    let mut pairs: Vec<(String, String)> = Vec::new();
    let mut j: usize = 0;
    while j < t.nodes.len()
        invariant
            t.wf(),
            j <= t.len(),
            fcp == call_pair(*t),
            pair_views(pairs@) == collect_some(fcp, 0, j as int),
        decreases t.len() - j,
    {
        assert(t.node_ok(j as int));
        let callee = call_name(t, j);
        if callee.is_some() {
            let caller = find_containing_function_name_safe(t, t.nodes[j].start_row + 1);
            match (caller, callee) {
                (Some(a), Some(b)) => {
                    pairs.push((a, b));
                },
                _ => {},
            }
        }
        assert(pair_views(pairs@) =~= collect_some(fcp, 0, j + 1));
        j = j + 1;
    }
    let ghost nv = string_views(names@);
    let mut graph: Vec<CallGraphNode> = Vec::new();
    let mut k: usize = 0;
    while k < names.len()
        invariant
            t.wf(),
            nv == string_views(names@),
            nv == fn_names(*t),
            pair_views(pairs@) == call_pairs(*t),
            k <= names@.len(),
            graph@.len() == k,
            forall|m: int| 0 <= m < k ==> node_view(#[trigger] graph@[m]) == call_graph_spec(*t)[m],
        decreases names@.len() - k,
    {
        let g = &names[k];
        let line = first_def_line(t, g.as_str());
        let callees = seconds_where(&pairs, g.as_str());
        let ghost cpred = |h: Seq<char>| callees_of(*t, h).contains(g@);
        let mut callers: Vec<String> = Vec::new();
        let mut q: usize = 0;
        assert(nv.take(0).filter(cpred) =~= Seq::<Seq<char>>::empty()) by {
            reveal(Seq::filter);
        }
        while q < names.len()
            invariant
                t.wf(),
                nv == string_views(names@),
                pair_views(pairs@) == call_pairs(*t),
                cpred == (|h: Seq<char>| callees_of(*t, h).contains(g@)),
                q <= names@.len(),
                string_views(callers@) == nv.take(q as int).filter(cpred),
            decreases names@.len() - q,
        {
            let h = &names[q];
            let hc = seconds_where(&pairs, h.as_str());
            proof {
                assert(nv.take(q + 1) =~= nv.take(q as int).push(h@));
                nv.take(q as int).lemma_filter_push(h@, cpred);
            }
            let ghost before = callers@;
            if contains_str(&hc, g.as_str()) {
                let y = h.clone();
                callers.push(y);
                proof {
                    lemma_views_push(before, y);
                }
            }
            q = q + 1;
        }
        assert(nv.take(names@.len() as int) =~= nv);
        graph.push(CallGraphNode { name: g.clone(), line, callees, callers });
        k = k + 1;
    }
    assert(graph@.map_values(|n: CallGraphNode| node_view(n)) =~= call_graph_spec(*t));
    graph
}

/// The line of the first definition of the function named `g`.
fn first_def_line(t: &SyntaxTree, g: &str) -> (r: usize)
    requires
        t.wf(),
    ensures
        r as int == def_line_from(*t, g@, 0),
{
    let mut k: usize = 0;
    while k < t.nodes.len()
        invariant
            t.wf(),
            k <= t.len(),
            def_line_from(*t, g@, 0) == def_line_from(*t, g@, k as int),
        decreases t.len() - k,
    {
        assert(t.node_ok(k as int));
        if t.nodes[k].named && t.kind_is(k, "function_item") {
            match t.child_by_field(k, "name") {
                Some(c) => match &t.nodes[c].text {
                    Some(name) => {
                        if str_equal(name.as_str(), g) {
                            return t.nodes[k].start_row + 1;
                        }
                    },
                    None => {},
                },
                None => {},
            }
        }
        k = k + 1;
    }
    0
}

/// The call graph of a parsed file.
pub fn build_call_graph(source: &str, tree: &tree_sitter::Tree) -> (r: Vec<CallGraphNode>)
    ensures
        exists|t: SyntaxTree| models(t, *tree, source@)
            && r@.map_values(|n: CallGraphNode| node_view(n)) == #[trigger] call_graph_spec(t),
{
    match syntax_tree_from(tree, source) {
        Some(t) => build_call_graph_in(&t),
        None => Vec::new(),
    }
}


/// What a change on one line affects.
pub struct ImpactResult {
    pub def_line: usize,
    pub var_name: String,
    pub forward_usages: Vec<SliceEntry>,
    pub callees: Vec<String>,
}

/// The name that a change on line `line` concerns: the name a `let` there
/// declares, or else the name of the function that spans the line, or else
/// the empty text.
pub open spec fn impact_name(t: SyntaxTree, line: int) -> Seq<char> {
    match def_name_at(t, line) {
        Some(n) => n,
        None => match fn_name_spanning(t, line) {
            Some(n) => n,
            None => Seq::empty(),
        },
    }
}

/// Node `k` is a `let` on line `line` that names what it declares by a
/// named identifier child whose text is known.
pub open spec fn names_a_let(t: SyntaxTree, k: int, line: int) -> bool {
    &&& t.named(k)
    &&& t.kind(k) == "let_declaration"@
    &&& t.line(k) == line
    &&& t.named_child_of_kind(k, "identifier"@) is Some
    &&& t.text(t.named_child_of_kind(k, "identifier"@).unwrap()) is Some
}

/// When line `line` holds a `let` that names what it declares, the impact
/// of a change there is on a declared name: the name that the first such
/// `let` (in pre-order) declares, not the enclosing function.
pub proof fn lemma_impact_names_the_declared_variable(t: SyntaxTree, line: int, k: int)
    requires
        0 <= k < t.len(),
        names_a_let(t, k, line),
    ensures
        exists|j: int| 0 <= j <= k && #[trigger] names_a_let(t, j, line)
            && (forall|m: int| 0 <= m < j ==> !names_a_let(t, m, line))
            && impact_name(t, line) == t.text(t.named_child_of_kind(j, "identifier"@).unwrap()).unwrap(),
{
    lemma_def_name_from(t, line, 0, k);
}

/// From node `x` on, the search for a declared name on `line` stops at the
/// first `let` there that names what it declares.
proof fn lemma_def_name_from(t: SyntaxTree, line: int, x: int, k: int)
    requires
        0 <= x <= k < t.len(),
        names_a_let(t, k, line),
    ensures
        exists|j: int| x <= j <= k && #[trigger] names_a_let(t, j, line)
            && (forall|m: int| x <= m < j ==> !names_a_let(t, m, line))
            && def_name_from(t, line, x) == t.text(t.named_child_of_kind(j, "identifier"@).unwrap()),
    decreases k - x,
{
    if names_a_let(t, x, line) {
        assert(names_a_let(t, x, line));
    } else {
        lemma_def_name_from(t, line, x + 1, k);
        let j = choose|j: int| x + 1 <= j <= k && #[trigger] names_a_let(t, j, line)
            && (forall|m: int| x + 1 <= m < j ==> !names_a_let(t, m, line))
            && def_name_from(t, line, x + 1) == t.text(t.named_child_of_kind(j, "identifier"@).unwrap());
        assert(forall|m: int| x <= m < j ==> !names_a_let(t, m, line));
    }
}

/// The callees that the call graph records for `g`: none when `g` is not
/// one of its functions.
pub open spec fn graph_callees(t: SyntaxTree, g: Seq<char>) -> Seq<Seq<char>> {
    if fn_names(t).contains(g) { callees_of(t, g) } else { Seq::empty() }
}

/// The impact of a change on line `line` of `t`, the tree of `file`: the
/// name concerned, its forward slice, and the calls made in the function of
/// that name.
pub fn impact_analysis_in(t: &SyntaxTree, file: &str, line: usize) -> (r: ImpactResult)
    requires
        t.wf(),
    ensures
        r.def_line == line,
        r.var_name@ == impact_name(*t, line as int),
        entry_views(r.forward_usages@) == forward_slice_spec(*t, file@, line as int),
        string_views(r.callees@) == graph_callees(*t, impact_name(*t, line as int)),
{
    let name = match extract_def_name_at_line(t, line) {
        Some(n) => n,
        None => match find_containing_function_name_safe(t, line) {
            Some(n) => n,
            None => String::new(),
        },
    };
    let forward = forward_slice_in(t, file, line);
    let graph = build_call_graph_in(t);
    let ghost gv = graph@.map_values(|n: CallGraphNode| node_view(n));
    let ghost fnn = fn_names(*t);
    assert(gv.len() == fnn.len());
    let mut callees: Vec<String> = Vec::new();
    let mut found = false;
    let mut k: usize = 0;
    while k < graph.len() && !found
        invariant
            gv == graph@.map_values(|n: CallGraphNode| node_view(n)),
            gv == call_graph_spec(*t),
            fnn == fn_names(*t),
            gv.len() == fnn.len(),
            k <= graph@.len(),
            !found ==> forall|m: int| 0 <= m < k ==> fnn[m] != name@,
            !found ==> callees@.len() == 0,
            found ==> fnn.contains(name@) && string_views(callees@) == callees_of(*t, name@),
        decreases graph@.len() - k,
    {
        assert(gv[k as int] == call_graph_spec(*t)[k as int]);
        assert(gv[k as int].0 == fnn[k as int]);
        assert(gv[k as int] == node_view(graph@[k as int]));
        if str_equal(graph[k].name.as_str(), name.as_str()) {
            let mut cs: Vec<String> = Vec::new();
            let mut q: usize = 0;
            while q < graph[k].callees.len()
                invariant
                    k < graph@.len(),
                    q <= graph@[k as int].callees@.len(),
                    string_views(cs@) == string_views(graph@[k as int].callees@).take(q as int),
                decreases graph@[k as int].callees@.len() - q,
            {
                let ghost before = cs@;
                let y = graph[k].callees[q].clone();
                cs.push(y);
                proof {
                    lemma_views_push(before, y);
                    assert(string_views(graph@[k as int].callees@).take(q + 1)
                        =~= string_views(graph@[k as int].callees@).take(q as int).push(y@));
                }
                q = q + 1;
            }
            assert(string_views(graph@[k as int].callees@).take(graph@[k as int].callees@.len() as int)
                =~= string_views(graph@[k as int].callees@));
            assert(fnn[k as int] == name@);
            assert(fnn.contains(name@));
            callees = cs;
            found = true;
        }
        k = k + 1;
    }
    proof {
        if !found {
            assert(!fnn.contains(name@));
            assert(string_views(callees@) =~= Seq::<Seq<char>>::empty());
        }
    }
    ImpactResult { def_line: line, var_name: name, forward_usages: forward, callees }
}


/// The impact of a change on line `line` of a parsed file.
pub fn impact_analysis(source: &str, tree: &tree_sitter::Tree, file: &str, line: usize) -> (r: ImpactResult)
    ensures
        r.def_line == line,
        exists|t: SyntaxTree| #![trigger impact_name(t, line as int)] models(t, *tree, source@)
                && r.var_name@ == impact_name(t, line as int)
                && entry_views(r.forward_usages@) == forward_slice_spec(t, file@, line as int)
                && string_views(r.callees@) == graph_callees(t, impact_name(t, line as int)),
{
    match syntax_tree_from(tree, source) {
        Some(t) => impact_analysis_in(&t, file, line),
        None => ImpactResult { def_line: line, var_name: String::new(), forward_usages: Vec::new(), callees: Vec::new() },
    }
}

/// The node at `j` when it is a named node of kind `kind`: an entry with no
/// file, its line and its text (`?` when unknown).
pub open spec fn kind_match(t: SyntaxTree, kind: Seq<char>) -> spec_fn(int) -> Option<(Seq<char>, int, Seq<char>)> {
    |j: int| if t.named(j) && t.kind(j) == kind {
        Some((Seq::empty(), t.line(j), match t.text(j) { Some(x) => x, None => "?"@ }))
    } else {
        None
    }
}

/// The named nodes of kind `target_kind` in `t`, in pre-order.
pub fn code_search_in(t: &SyntaxTree, target_kind: &str) -> (r: Vec<SliceEntry>)
    requires
        t.wf(),
    ensures
        entry_views(r@) == collect_some(kind_match(*t, target_kind@), 0, t.len()),
{
    let ghost f = kind_match(*t, target_kind@);
    let mut r: Vec<SliceEntry> = Vec::new();
    let mut j: usize = 0;
    proof {
        reveal_strlit("?");
    }
    while j < t.nodes.len()
        invariant
            t.wf(),
            j <= t.len(),
            f == kind_match(*t, target_kind@),
            entry_views(r@) == collect_some(f, 0, j as int),
        decreases t.len() - j,
    {
        assert(t.node_ok(j as int));
        let ghost before = r@;
        if t.nodes[j].named && t.kind_is(j, target_kind) {
            let text = match t.text_of(j) {
                Some(x) => x,
                None => "?".to_string(),
            };
            let e = SliceEntry { file: String::new(), line: t.nodes[j].start_row + 1, text };
            r.push(e);
            proof {
                lemma_entries_push(before, e);
            }
        }
        assert(entry_views(r@) =~= collect_some(f, 0, j + 1));
        j = j + 1;
    }
    r
}

/// The named nodes of kind `target_kind` in a parsed file, in pre-order.
///
pub fn code_search(source: &str, tree: &tree_sitter::Tree, target_kind: &str) -> (r: Vec<SliceEntry>)
    ensures
        exists|t: SyntaxTree| models(t, *tree, source@)
            && entry_views(r@) == #[trigger] collect_some(kind_match(t, target_kind@), 0, t.len()),
{
    match syntax_tree_from(tree, source) {
        Some(t) => code_search_in(&t, target_kind),
        None => Vec::new(),
    }
}

/// A variable and the type written for it, if any.
pub struct TypeInfo {
    pub var: String,
    pub line: usize,
    pub type_annotation: Option<String>,
}

/// The first of `cs` that is a named identifier with a known text: its text.
pub open spec fn first_ident_text(t: SyntaxTree, cs: Seq<int>) -> Option<Seq<char>>
    decreases cs.len(),
{
    if cs.len() == 0 {
        None
    } else if t.named(cs[0]) && t.kind(cs[0]) == "identifier"@ && t.text(cs[0]) is Some {
        t.text(cs[0])
    } else {
        first_ident_text(t, cs.drop_first())
    }
}

/// The first named node of `cs` from position `k` on.
pub open spec fn next_named(t: SyntaxTree, cs: Seq<int>, k: int) -> Option<int>
    decreases cs.len() - k,
{
    if k < 0 || k >= cs.len() {
        None
    } else if t.named(cs[k]) {
        Some(cs[k])
    } else {
        next_named(t, cs, k + 1)
    }
}

/// The type annotation after scanning the first `k` of `cs`: each `:`
/// that a named node follows sets it to that node's text.
pub open spec fn annotation_scan(t: SyntaxTree, cs: Seq<int>, k: int) -> Option<Seq<char>>
    decreases k,
{
    if k <= 0 || k > cs.len() {
        None
    } else {
        let prev = annotation_scan(t, cs, k - 1);
        if t.kind(cs[k - 1]) == ":"@ {
            match next_named(t, cs, k) {
                Some(d) => t.text(d),
                None => prev,
            }
        } else {
            prev
        }
    }
}

/// The variable and type annotation of the `let` at node `i`.
pub open spec fn type_info_at(t: SyntaxTree) -> spec_fn(int) -> Option<(Seq<char>, int, Option<Seq<char>>)> {
    |i: int| if t.named(i) && t.kind(i) == "let_declaration"@ {
        match first_ident_text(t, t.children(i)) {
            Some(v) => Some((v, t.line(i), annotation_scan(t, t.children(i), t.children(i).len() as int))),
            None => None,
        }
    } else {
        None
    }
}

/// The view of a type record.
pub open spec fn type_info_view(x: TypeInfo) -> (Seq<char>, int, Option<Seq<char>>) {
    (x.var@, x.line as int, opt_view(x.type_annotation))
}

/// The first named node of `cs` from position `k` on.
fn find_next_named(t: &SyntaxTree, cs: &Vec<usize>, k: usize) -> (r: Option<usize>)
    requires
        forall|m: int| 0 <= m < cs@.len() ==> #[trigger] cs@[m] < t.len(),
    ensures
        opt_int(r) == next_named(*t, crate::syntax::ints(cs@), k as int),
        r matches Some(d) ==> d < t.len(),
{
    let ghost all = crate::syntax::ints(cs@);
    let mut q = k;
    while q < cs.len()
        invariant
            all == crate::syntax::ints(cs@),
            k <= q,
            forall|m: int| 0 <= m < cs@.len() ==> #[trigger] cs@[m] < t.len(),
            next_named(*t, all, k as int) == next_named(*t, all, q as int),
        decreases cs@.len() - q,
    {
        if t.nodes[cs[q]].named {
            return Some(cs[q]);
        }
        q = q + 1;
    }
    None
}

/// The variables declared by `let` in `t`, with their lines and type
/// annotations, in pre-order.
pub fn type_info_in(t: &SyntaxTree) -> (r: Vec<TypeInfo>)
    requires
        t.wf(),
    ensures
        r@.map_values(|x: TypeInfo| type_info_view(x)) == collect_some(type_info_at(*t), 0, t.len()),
{
    let ghost f = type_info_at(*t);
    let mut r: Vec<TypeInfo> = Vec::new();
    let mut i: usize = 0;
    while i < t.nodes.len()
        invariant
            t.wf(),
            i <= t.len(),
            f == type_info_at(*t),
            r@.map_values(|x: TypeInfo| type_info_view(x)) == collect_some(f, 0, i as int),
        decreases t.len() - i,
    {
        assert(t.node_ok(i as int));
        if t.nodes[i].named && t.kind_is(i, "let_declaration") {
            let cs = t.children_of(i);
            let ghost all = crate::syntax::ints(cs@);
            let mut var: Option<String> = None;
            let mut typ: Option<String> = None;
            let mut k: usize = 0;
            assert(all.skip(0) =~= all);
            while k < cs.len()
                invariant
                    t.wf(),
                    all == crate::syntax::ints(cs@),
                    all == t.children(i as int),
                    forall|m: int| 0 <= m < cs@.len() ==> #[trigger] cs@[m] < t.len(),
                    k <= cs@.len(),
                    match var {
                        Some(v) => first_ident_text(*t, all) == Some(v@),
                        None => first_ident_text(*t, all) == first_ident_text(*t, all.skip(k as int)),
                    },
                    opt_view(typ) == annotation_scan(*t, all, k as int),
                decreases cs@.len() - k,
            {
                let c = cs[k];
                assert(all.skip(k as int)[0] == c as int);
                assert(all.skip(k as int).drop_first() =~= all.skip(k + 1));
                if var.is_none() && t.nodes[c].named && t.kind_is(c, "identifier") {
                    var = t.text_of(c);
                }
                if t.kind_is(c, ":") {
                    match find_next_named(t, &cs, k + 1) {
                        Some(d) => {
                            typ = t.text_of(d);
                        },
                        None => {},
                    }
                }
                k = k + 1;
            }
            match var {
                Some(v) => {
                    r.push(TypeInfo { var: v, line: t.nodes[i].start_row + 1, type_annotation: typ });
                },
                None => {
                    assert(all.skip(cs@.len() as int).len() == 0);
                },
            }
        }
        assert(r@.map_values(|x: TypeInfo| type_info_view(x)) =~= collect_some(f, 0, i + 1));
        i = i + 1;
    }
    r
}

/// The variables declared by `let` in a parsed file, with their lines and
/// type annotations.
pub fn type_info(source: &str, tree: &tree_sitter::Tree) -> (r: Vec<TypeInfo>)
    ensures
        exists|t: SyntaxTree| models(t, *tree, source@)
            && r@.map_values(|x: TypeInfo| type_info_view(x)) == #[trigger] collect_some(type_info_at(t), 0, t.len()),
{
    match syntax_tree_from(tree, source) {
        Some(t) => type_info_in(&t),
        None => Vec::new(),
    }
}

} // verus!
