//! Backward program slices: the statements of a function that a line
//! depends on, followed through the declarations of the variables it uses.
use vstd::prelude::*;
use crate::syntax::{SyntaxTree, ints, opt_int, opt_view, first_where};
use crate::text::{str_equal, string_views, lemma_views_push};
use crate::order::{increasing, sorted_ints, lemma_is_sorted_ints};
use crate::lang::backend::{syntax_tree_from, models};
use crate::detect::dead_code::function_def;
use crate::syntax::{collect_some, lemma_collect_some_contains};
use super::{
    SliceEntry, entry_view, entry_views, lemma_entries_push, sort_entries_by_line, sorted_by_line,
    sort_by_line_spec, lemma_ins_by_line, ins_pos,
};

verus! {

broadcast use vstd::string::group_string_axioms;

/// Kinds that a slice counts as statements.
pub open spec fn is_stmt_kind(k: Seq<char>) -> bool {
    k == "let_declaration"@ || k == "expression_statement"@ || k == "return_statement"@
}

/// Kinds whose statements belong to the enclosing function's body: every
/// kind but a nested function and a closure, so that the statements of
/// blocks, loops, `if`/`else` branches, match arms and `unsafe` or `async`
/// blocks are reached at any depth.
pub open spec fn is_container_kind(k: Seq<char>) -> bool {
    !(k == "function_item"@ || k == "closure_expression"@)
}

/// Whether `k` names a statement kind.
pub fn is_stmt(k: &str) -> (r: bool)
    ensures
        r == is_stmt_kind(k@),
{
    str_equal(k, "let_declaration") || str_equal(k, "expression_statement") || str_equal(k, "return_statement")
}

/// Whether the statements below a node of kind `k` belong to the body.
pub fn is_container(k: &str) -> (r: bool)
    ensures
        r == is_container_kind(k@),
{
    !(str_equal(k, "function_item") || str_equal(k, "closure_expression"))
}

/// The statements below `x`: among its named children, in order, each
/// statement, followed by the statements below it when it is a container.
pub open spec fn stmts_below(t: SyntaxTree, x: int) -> Seq<int>
    decreases t.len() - x, 1int, 0int,
{
    stmts_among(t, x, t.children(x))
}

pub open spec fn stmts_among(t: SyntaxTree, x: int, cs: Seq<int>) -> Seq<int>
    decreases t.len() - x, 0int, cs.len(),
{
    if cs.len() == 0 {
        Seq::empty()
    } else {
        let c = cs.last();
        let here: Seq<int> = if t.named(c) && is_stmt_kind(t.kind(c)) { seq![c] } else { Seq::empty() };
        let deeper: Seq<int> = if t.named(c) && is_container_kind(t.kind(c)) && x < c < t.len() {
            stmts_below(t, c)
        } else {
            Seq::empty()
        };
        stmts_among(t, x, cs.drop_last()) + here + deeper
    }
}

fn recurse_stmt(t: &SyntaxTree, x: usize, out: &mut Vec<usize>)
    requires
        t.wf(),
        x < t.len(),
        forall|k: int| 0 <= k < old(out)@.len() ==> #[trigger] old(out)@[k] < t.len(),
    ensures
        ints(final(out)@) == ints(old(out)@) + stmts_below(*t, x as int),
        forall|k: int| 0 <= k < final(out)@.len() ==> #[trigger] final(out)@[k] < t.len(),
    decreases t.len() - x,
{
    let cs = t.children_of(x);
    let ghost all = ints(cs@);
    let ghost base = ints(out@);
    assert(all.take(0) =~= Seq::<int>::empty());
    assert(ints(out@) =~= base + stmts_among(*t, x as int, all.take(0)));
    let mut k: usize = 0;
    while k < cs.len()
        invariant
            t.wf(),
            x < t.len(),
            all == ints(cs@),
            all == t.children(x as int),
            forall|m: int| 0 <= m < cs@.len() ==> x < #[trigger] cs@[m] < t.len(),
            k <= cs@.len(),
            ints(out@) == base + stmts_among(*t, x as int, all.take(k as int)),
            forall|m: int| 0 <= m < out@.len() ==> #[trigger] out@[m] < t.len(),
        decreases cs@.len() - k,
    {
        let c = cs[k];
        let ghost pre = all.take(k as int);
        assert(all.take(k + 1).drop_last() =~= pre);
        assert(all.take(k + 1).last() == c as int);
        let named = t.nodes[c].named;
        if named && is_stmt(t.nodes[c].kind.as_str()) {
            out.push(c);
            assert(ints(out@) =~= base + stmts_among(*t, x as int, pre) + seq![c as int]);
        }
        let ghost mid = ints(out@);
        if named && is_container(t.nodes[c].kind.as_str()) {
            recurse_stmt(t, c, out);
        }
        assert(ints(out@) =~= base + stmts_among(*t, x as int, all.take(k + 1)));
        k = k + 1;
    }
    assert(all.take(cs@.len() as int) =~= all);
}

/// The statements below node `x`, in order.
pub fn flatten_stmts(t: &SyntaxTree, x: usize) -> (r: Vec<usize>)
    requires
        t.wf(),
        x < t.len(),
    ensures
        ints(r@) == stmts_below(*t, x as int),
        forall|k: int| 0 <= k < r@.len() ==> #[trigger] r@[k] < t.len(),
{
    let mut r: Vec<usize> = Vec::new();
    assert(ints(r@) =~= Seq::<int>::empty());
    recurse_stmt(t, x, &mut r);
    assert(ints(r@) =~= stmts_below(*t, x as int));
    r
}

/// The identifiers below `x` that are reached through named nodes only, in
/// order, each by its text.
pub open spec fn idents_below(t: SyntaxTree, x: int) -> Seq<Seq<char>>
    decreases t.len() - x, 1int, 0int,
{
    idents_among(t, x, t.children(x))
}

pub open spec fn idents_among(t: SyntaxTree, x: int, cs: Seq<int>) -> Seq<Seq<char>>
    decreases t.len() - x, 0int, cs.len(),
{
    if cs.len() == 0 {
        Seq::empty()
    } else {
        let c = cs.last();
        let here: Seq<Seq<char>> = if t.named(c) && t.kind(c) == "identifier"@ && t.text(c) is Some {
            seq![t.text(c).unwrap()]
        } else {
            Seq::empty()
        };
        let deeper: Seq<Seq<char>> = if t.named(c) && x < c < t.len() { idents_below(t, c) } else { Seq::empty() };
        idents_among(t, x, cs.drop_last()) + here + deeper
    }
}

fn collect_identifiers(t: &SyntaxTree, x: usize, out: &mut Vec<String>)
    requires
        t.wf(),
        x < t.len(),
    ensures
        string_views(final(out)@) == string_views(old(out)@) + idents_below(*t, x as int),
    decreases t.len() - x,
{
    let cs = t.children_of(x);
    let ghost all = ints(cs@);
    let ghost base = string_views(out@);
    assert(all.take(0) =~= Seq::<int>::empty());
    assert(string_views(out@) =~= base + idents_among(*t, x as int, all.take(0)));
    let mut k: usize = 0;
    while k < cs.len()
        invariant
            t.wf(),
            x < t.len(),
            all == ints(cs@),
            all == t.children(x as int),
            forall|m: int| 0 <= m < cs@.len() ==> x < #[trigger] cs@[m] < t.len(),
            k <= cs@.len(),
            string_views(out@) == base + idents_among(*t, x as int, all.take(k as int)),
        decreases cs@.len() - k,
    {
        let c = cs[k];
        let ghost pre = all.take(k as int);
        assert(all.take(k + 1).drop_last() =~= pre);
        assert(all.take(k + 1).last() == c as int);
        let named = t.nodes[c].named;
        if named && t.kind_is(c, "identifier") {
            match t.text_of(c) {
                Some(name) => {
                    let ghost before = out@;
                    out.push(name);
                    proof {
                        lemma_views_push(before, name);
                    }
                    assert(string_views(out@) =~= base + idents_among(*t, x as int, pre) + seq![t.text(c as int).unwrap()]);
                },
                None => {},
            }
        }
        if named {
            collect_identifiers(t, c, out);
        }
        assert(string_views(out@) =~= base + idents_among(*t, x as int, all.take(k + 1)));
        k = k + 1;
    }
    assert(all.take(cs@.len() as int) =~= all);
}

/// The identifiers below node `x`.
pub fn extract_identifiers(t: &SyntaxTree, x: usize) -> (r: Vec<String>)
    requires
        t.wf(),
        x < t.len(),
    ensures
        string_views(r@) == idents_below(*t, x as int),
{
    let mut r: Vec<String> = Vec::new();
    assert(string_views(r@) =~= Seq::<Seq<char>>::empty());
    collect_identifiers(t, x, &mut r);
    assert(string_views(r@) =~= idents_below(*t, x as int));
    r
}

/// The first function that spans line `line` (one-based), in pre-order.
pub open spec fn containing_function_from(t: SyntaxTree, line: int, k: int) -> Option<int>
    decreases t.len() - k,
{
    if k < 0 || k >= t.len() {
        None
    } else if t.named(k) && t.kind(k) == "function_item"@ && t.line(k) <= line <= t.end_line(k) {
        Some(k)
    } else {
        containing_function_from(t, line, k + 1)
    }
}

pub open spec fn containing_function(t: SyntaxTree, line: int) -> Option<int> {
    containing_function_from(t, line, 0)
}

/// The first function in pre-order whose lines include `line`.
pub fn find_containing_function(t: &SyntaxTree, line: usize) -> (r: Option<usize>)
    requires
        t.wf(),
    ensures
        opt_int(r) == containing_function(*t, line as int),
        r matches Some(f) ==> f < t.len(),
{
    let mut k: usize = 0;
    while k < t.nodes.len()
        invariant
            t.wf(),
            k <= t.len(),
            containing_function(*t, line as int) == containing_function_from(*t, line as int, k as int),
        decreases t.len() - k,
    {
        assert(t.node_ok(k as int));
        let n = &t.nodes[k];
        if n.named && t.kind_is(k, "function_item") && n.start_row + 1 <= line && line <= n.end_row + 1 {
            return Some(k);
        }
        k = k + 1;
    }
    None
}

/// The name that a `let` at node `c` declares: its `pattern` field, or else
/// its first named identifier child, when its text is known.
pub open spec fn let_name(t: SyntaxTree, c: int) -> Option<Seq<char>> {
    let n = match t.field_child(c, "pattern"@) {
        Some(p) => Some(p),
        None => t.named_child_of_kind(c, "identifier"@),
    };
    match n {
        Some(p) => t.text(p),
        None => None,
    }
}

/// The name that the `let` at node `c` declares.
pub fn let_name_of(t: &SyntaxTree, c: usize) -> (r: Option<String>)
    requires
        t.wf(),
        c < t.len(),
    ensures
        opt_view(r) == let_name(*t, c as int),
{
    let n = match t.child_by_field(c, "pattern") {
        Some(p) => Some(p),
        None => t.first_named_child_of_kind(c, "identifier"),
    };
    match n {
        Some(p) => t.text_of(p),
        None => None,
    }
}

/// The line recorded for `k` in a list of declarations: its last entry.
pub open spec fn assoc_get(s: Seq<(Seq<char>, int)>, k: Seq<char>) -> Option<int>
    decreases s.len(),
{
    if s.len() == 0 {
        None
    } else {
        match assoc_get(s.drop_first(), k) {
            Some(v) => Some(v),
            None => if s[0].0 == k { Some(s[0].1) } else { None },
        }
    }
}

/// A later entry takes the place of the earlier ones.
pub proof fn lemma_assoc_push(s: Seq<(Seq<char>, int)>, e: (Seq<char>, int), k: Seq<char>)
    ensures
        assoc_get(s.push(e), k) == if e.0 == k { Some(e.1) } else { assoc_get(s, k) },
    decreases s.len(),
{
    if s.len() > 0 {
        assert(s.push(e).drop_first() =~= s.drop_first().push(e));
        assert(s.push(e)[0] == s[0]);
        lemma_assoc_push(s.drop_first(), e, k);
    } else {
        assert(s.push(e).drop_first() =~= Seq::<(Seq<char>, int)>::empty());
        assert(s.push(e)[0] == e);
        assert(assoc_get(Seq::<(Seq<char>, int)>::empty(), k) is None);
    }
}

/// The declarations below `x`, as a lookup from names to lines: among the
/// named children in order, a container adds the names declared below it
/// that are not recorded yet, and then a `let` records its name (replacing
/// what was recorded).
pub open spec fn decls_below(t: SyntaxTree, x: int) -> spec_fn(Seq<char>) -> Option<int>
    decreases t.len() - x, 1int, 0int,
{
    decls_among(t, x, t.children(x))
}

pub open spec fn decls_among(t: SyntaxTree, x: int, cs: Seq<int>) -> spec_fn(Seq<char>) -> Option<int>
    decreases t.len() - x, 0int, cs.len(),
{
    if cs.len() == 0 {
        |k: Seq<char>| None
    } else {
        let c = cs.last();
        let m0 = decls_among(t, x, cs.drop_last());
        let m = if t.named(c) && is_container_kind(t.kind(c)) && x < c < t.len() {
            let inner = decls_below(t, c);
            |k: Seq<char>| match m0(k) {
                Some(v) => Some(v),
                None => inner(k),
            }
        } else {
            m0
        };
        if t.named(c) && t.kind(c) == "let_declaration"@ && let_name(t, c) is Some {
            let n = let_name(t, c).unwrap();
            let l = t.line(c);
            |k: Seq<char>| if k == n { Some(l) } else { m(k) }
        } else {
            m
        }
    }
}

/// The views of a list of declarations.
pub open spec fn decl_views(v: Seq<(String, usize)>) -> Seq<(Seq<char>, int)> {
    v.map_values(|e: (String, usize)| (e.0@, e.1 as int))
}

/// The line recorded for `name`.
pub fn lookup_decl(d: &Vec<(String, usize)>, name: &str) -> (r: Option<usize>)
    ensures
        opt_int(r) == assoc_get(decl_views(d@), name@),
{
    let ghost s = decl_views(d@);
    let mut k: usize = d.len();
    assert(s.take(d@.len() as int) =~= s);
    while k > 0
        invariant
            s == decl_views(d@),
            k <= d@.len(),
            assoc_get(s, name@) == assoc_get(s.take(k as int), name@),
        decreases k,
    {
        proof {
            lemma_assoc_split(s, k - 1, name@);
        }
        if str_equal(d[k - 1].0.as_str(), name) {
            return Some(d[k - 1].1);
        }
        k = k - 1;
    }
    assert(s.take(0) =~= Seq::<(Seq<char>, int)>::empty());
    assert(assoc_get(Seq::<(Seq<char>, int)>::empty(), name@) is None);
    None
}

/// Looking up in a list is looking up in its last part, and in its first
/// part when the last part has nothing.
pub proof fn lemma_assoc_split(s: Seq<(Seq<char>, int)>, i: int, k: Seq<char>)
    requires
        0 <= i < s.len(),
    ensures
        assoc_get(s.take(i + 1), k) == match assoc_get(s.take(i), k) {
            Some(v) => if s[i].0 == k { Some(s[i].1) } else { Some(v) },
            None => if s[i].0 == k { Some(s[i].1) } else { None },
        },
        assoc_get(s.skip(i), k) == match assoc_get(s.skip(i + 1), k) {
            Some(v) => Some(v),
            None => if s[i].0 == k { Some(s[i].1) } else { None },
        },
{
    assert(s.take(i + 1) =~= s.take(i).push(s[i]));
    lemma_assoc_push(s.take(i), s[i], k);
    assert(s.skip(i).drop_first() =~= s.skip(i + 1));
}

/// The declarations below node `x`: for each name, its line.
pub fn build_decls(t: &SyntaxTree, x: usize) -> (r: Vec<(String, usize)>)
    requires
        t.wf(),
        x < t.len(),
    ensures
        forall|k: Seq<char>| #[trigger] assoc_get(decl_views(r@), k) == decls_below(*t, x as int)(k),
    decreases t.len() - x,
{
    let cs = t.children_of(x);
    let ghost all = ints(cs@);
    let mut d: Vec<(String, usize)> = Vec::new();
    assert(all.take(0) =~= Seq::<int>::empty());
    assert forall|k: Seq<char>| #[trigger] assoc_get(decl_views(d@), k) == decls_among(*t, x as int, all.take(0))(k) by {
        assert(decl_views(d@) =~= Seq::<(Seq<char>, int)>::empty());
    }
    let mut i: usize = 0;
    while i < cs.len()
        invariant
            t.wf(),
            x < t.len(),
            all == ints(cs@),
            all == t.children(x as int),
            forall|m: int| 0 <= m < cs@.len() ==> x < #[trigger] cs@[m] < t.len(),
            i <= cs@.len(),
            forall|k: Seq<char>| #[trigger] assoc_get(decl_views(d@), k) == decls_among(*t, x as int, all.take(i as int))(k),
        decreases cs@.len() - i,
    {
        let c = cs[i];
        let ghost pre = all.take(i as int);
        assert(all.take(i + 1).drop_last() =~= pre);
        assert(all.take(i + 1).last() == c as int);
        assert(t.node_ok(c as int));
        let named = t.nodes[c].named;
        let ghost d0 = decl_views(d@);
        let ghost m0 = decls_among(*t, x as int, pre);
        let is_cont = named && is_container(t.nodes[c].kind.as_str());
        if is_cont {
            let inner = build_decls(t, c);
            let ghost iv = decl_views(inner@);
            let mut j: usize = inner.len();
            assert(iv.skip(inner@.len() as int) =~= Seq::<(Seq<char>, int)>::empty());
            while j > 0
                invariant
                    iv == decl_views(inner@),
                    j <= inner@.len(),
                    forall|k: Seq<char>| #[trigger] assoc_get(decl_views(d@), k) == match assoc_get(d0, k) {
                        Some(v) => Some(v),
                        None => assoc_get(iv.skip(j as int), k),
                    },
                decreases j,
            {
                let ghost dv = decl_views(d@);
                let key = &inner[j - 1].0;
                let found = lookup_decl(&d, key.as_str());
                if found.is_none() {
                    let ghost e = (key@, inner[j - 1].1 as int);
                    d.push((key.clone(), inner[j - 1].1));
                    assert(decl_views(d@) =~= dv.push(e));
                    assert forall|k: Seq<char>| #[trigger] assoc_get(decl_views(d@), k) == match assoc_get(d0, k) {
                        Some(v) => Some(v),
                        None => assoc_get(iv.skip(j - 1), k),
                    } by {
                        lemma_assoc_push(dv, e, k);
                        lemma_assoc_split(iv, j - 1, k);
                    }
                } else {
                    assert forall|k: Seq<char>| #[trigger] assoc_get(decl_views(d@), k) == match assoc_get(d0, k) {
                        Some(v) => Some(v),
                        None => assoc_get(iv.skip(j - 1), k),
                    } by {
                        lemma_assoc_split(iv, j - 1, k);
                    }
                }
                j = j - 1;
            }
            assert(iv.skip(0) =~= iv);
        }
        let ghost d1 = decl_views(d@);
        assert forall|k: Seq<char>| #[trigger] assoc_get(d1, k) == (if is_cont {
            match m0(k) {
                Some(v) => Some(v),
                None => decls_below(*t, c as int)(k),
            }
        } else {
            m0(k)
        }) by {}
        if named && t.kind_is(c, "let_declaration") {
            match let_name_of(t, c) {
                Some(name) => {
                    let line = t.nodes[c].start_row + 1;
                    let ghost e = (name@, line as int);
                    d.push((name, line));
                    assert(decl_views(d@) =~= d1.push(e));
                    assert forall|k: Seq<char>| #[trigger] assoc_get(decl_views(d@), k)
                        == decls_among(*t, x as int, all.take(i + 1))(k) by {
                        lemma_assoc_push(d1, e, k);
                    }
                },
                None => {
                    assert forall|k: Seq<char>| #[trigger] assoc_get(decl_views(d@), k)
                        == decls_among(*t, x as int, all.take(i + 1))(k) by {
                    }
                },
            }
        } else {
            assert forall|k: Seq<char>| #[trigger] assoc_get(decl_views(d@), k)
                == decls_among(*t, x as int, all.take(i + 1))(k) by {
            }
        }
        i = i + 1;
    }
    assert(all.take(cs@.len() as int) =~= all);
    d
}

/// The first statement of `ss` that starts on line `l`.
pub open spec fn stmt_at(t: SyntaxTree, ss: Seq<int>, l: int) -> Option<int> {
    first_where(ss, |s: int| t.line(s) == l)
}

/// The text of statement `s`, or `?` when it is not known.
pub open spec fn stmt_text(t: SyntaxTree, s: int) -> Seq<char> {
    match t.text(s) {
        Some(x) => x,
        None => "?"@,
    }
}

/// Line `a` leads to line `b`: the statement on `a` uses a name that is
/// declared on `b`.
pub open spec fn slice_step(t: SyntaxTree, ss: Seq<int>, d: spec_fn(Seq<char>) -> Option<int>, a: int, b: int) -> bool {
    match stmt_at(t, ss, a) {
        Some(s) => exists|id: Seq<char>| idents_below(t, s).contains(id) && #[trigger] d(id) == Some(b),
        None => false,
    }
}

/// A chain of lines each leading to the next.
pub open spec fn slice_path(t: SyntaxTree, ss: Seq<int>, d: spec_fn(Seq<char>) -> Option<int>, p: Seq<int>) -> bool {
    &&& p.len() > 0
    &&& forall|i: int| 0 <= i < p.len() - 1 ==> slice_step(t, ss, d, #[trigger] p[i], p[i + 1])
}

/// Line `l` is reached from line `start`.
pub open spec fn slice_reaches(t: SyntaxTree, ss: Seq<int>, d: spec_fn(Seq<char>) -> Option<int>, start: int, l: int) -> bool {
    exists|p: Seq<int>| #[trigger] slice_path(t, ss, d, p) && p[0] == start && p.last() == l
}

/// The lines of the slice of function `f` from line `start`: the lines
/// reached from `start` that hold a statement.
pub open spec fn slice_lines(t: SyntaxTree, f: int, start: int) -> Set<int> {
    let ss = stmts_below(t, f);
    let d = decls_below(t, f);
    Set::new(|l: int| slice_reaches(t, ss, d, start, l) && stmt_at(t, ss, l) is Some)
}

/// A line that holds a statement is in its own slice.
pub proof fn lemma_slice_holds_start(t: SyntaxTree, f: int, line: int)
    requires
        stmt_at(t, stmts_below(t, f), line) is Some,
    ensures
        slice_lines(t, f, line).contains(line),
{
    let ss = stmts_below(t, f);
    let d = decls_below(t, f);
    let p = seq![line];
    assert(slice_path(t, ss, d, p));
    assert(slice_reaches(t, ss, d, line, line));
}

/// Slicing is transitive: a line in the slice of a line in the slice of
/// `l1` is in the slice of `l1` itself.
pub proof fn lemma_slice_transitive(t: SyntaxTree, f: int, l1: int, l2: int, l3: int)
    requires
        slice_lines(t, f, l1).contains(l2),
        slice_lines(t, f, l2).contains(l3),
    ensures
        slice_lines(t, f, l1).contains(l3),
{
    let ss = stmts_below(t, f);
    let d = decls_below(t, f);
    assert(slice_reaches(t, ss, d, l1, l2));
    assert(slice_reaches(t, ss, d, l2, l3));
    let p = choose|p: Seq<int>| #[trigger] slice_path(t, ss, d, p) && p[0] == l1 && p.last() == l2;
    let q = choose|q: Seq<int>| #[trigger] slice_path(t, ss, d, q) && q[0] == l2 && q.last() == l3;
    let r = p + q.skip(1);
    assert forall|i: int| 0 <= i < r.len() - 1 implies slice_step(t, ss, d, #[trigger] r[i], r[i + 1]) by {
        if i < p.len() - 1 {
            assert(r[i] == p[i]);
            assert(r[i + 1] == p[i + 1]);
        } else {
            let j = i - (p.len() - 1);
            assert(r[i] == q[j]);
            assert(r[i + 1] == q[j + 1]);
        }
    }
    assert(slice_path(t, ss, d, r));
    assert(r[0] == l1);
    assert(r.last() == l3);
    assert(slice_reaches(t, ss, d, l1, l3));
}

/// The backward slice of `file` from line `line`: in the first function
/// that spans the line, every statement that the line depends on through
/// the declarations of the names it uses, transitively, by increasing line,
/// each with its text (`?` when unknown). Empty outside any function.
pub open spec fn backward_slice_spec(t: SyntaxTree, file: Seq<char>, line: int) -> Seq<(Seq<char>, int, Seq<char>)> {
    match containing_function(t, line) {
        Some(f) => sorted_ints(slice_lines(t, f, line)).map_values(|l: int|
            (file, l, stmt_text(t, stmt_at(t, stmts_below(t, f), l).unwrap()))),
        None => Seq::empty(),
    }
}

/// The first statement of `ss` that starts on line `l`.
pub fn find_stmt_at(t: &SyntaxTree, ss: &Vec<usize>, l: usize) -> (r: Option<usize>)
    requires
        forall|k: int| 0 <= k < ss@.len() ==> #[trigger] ss@[k] < t.len(),
    ensures
        opt_int(r) == stmt_at(*t, ints(ss@), l as int),
        r matches Some(s) ==> s < t.len(),
{
    let ghost all = ints(ss@);
    let ghost p = |s: int| t.line(s) == l as int;
    assert(all.subrange(0, all.len() as int) =~= all);
    let mut k: usize = 0;
    while k < ss.len()
        invariant
            k <= ss@.len(),
            all == ints(ss@),
            p == (|s: int| t.line(s) == l as int),
            forall|m: int| 0 <= m < ss@.len() ==> #[trigger] ss@[m] < t.len(),
            first_where(all, p) == first_where(all.subrange(k as int, all.len() as int), p),
        decreases ss@.len() - k,
    {
        let s = ss[k];
        let ghost rest = all.subrange(k as int, all.len() as int);
        assert(rest[0] == s as int);
        assert(rest.drop_first() =~= all.subrange(k + 1, all.len() as int));
        if t.nodes[s].start_row < usize::MAX && t.nodes[s].start_row + 1 == l {
            return Some(s);
        }
        proof {
            if t.nodes@[s as int].start_row == usize::MAX {
                assert(t.line(s as int) == usize::MAX + 1);
            }
        }
        k = k + 1;
    }
    assert(all.subrange(k as int, all.len() as int).len() == 0);
    None
}

/// A chain extended by one step is a chain.
pub proof fn lemma_path_push(t: SyntaxTree, ss: Seq<int>, d: spec_fn(Seq<char>) -> Option<int>, p: Seq<int>, w: int)
    requires
        slice_path(t, ss, d, p),
        slice_step(t, ss, d, p.last(), w),
    ensures
        slice_path(t, ss, d, p.push(w)),
        p.push(w)[0] == p[0],
        p.push(w).last() == w,
{
    let q = p.push(w);
    assert forall|i: int| 0 <= i < q.len() - 1 implies slice_step(t, ss, d, #[trigger] q[i], q[i + 1]) by {
        if i < p.len() - 1 {
            assert(q[i] == p[i] && q[i + 1] == p[i + 1]);
        } else {
            assert(q[i] == p.last());
        }
    }
}

/// Every line of a chain that starts in a set closed under the steps lies
/// in the set.
pub proof fn lemma_closed_path(t: SyntaxTree, ss: Seq<int>, d: spec_fn(Seq<char>) -> Option<int>, vs: Set<int>, p: Seq<int>, i: int)
    requires
        slice_path(t, ss, d, p),
        vs.contains(p[0]),
        forall|a: int, b: int| vs.contains(a) && slice_step(t, ss, d, a, b) ==> vs.contains(b),
        0 <= i < p.len(),
    ensures
        vs.contains(p[i]),
    decreases i,
{
    if i > 0 {
        lemma_closed_path(t, ss, d, vs, p, i - 1);
        assert(slice_step(t, ss, d, p[i - 1], p[i]));
    }
}

/// A line recorded for a name is one of the recorded lines.
pub proof fn lemma_assoc_value(s: Seq<(Seq<char>, int)>, k: Seq<char>)
    ensures
        assoc_get(s, k) matches Some(v) ==> s.map_values(|e: (Seq<char>, int)| e.1).contains(v),
    decreases s.len(),
{
    if s.len() > 0 {
        lemma_assoc_value(s.drop_first(), k);
        let vals = s.map_values(|e: (Seq<char>, int)| e.1);
        let rest = s.drop_first().map_values(|e: (Seq<char>, int)| e.1);
        if let Some(v) = assoc_get(s.drop_first(), k) {
            let i = choose|i: int| 0 <= i < rest.len() && rest[i] == v;
            assert(vals[i + 1] == v);
        } else if s[0].0 == k {
            assert(vals[0] == s[0].1);
        }
    }
}

/// Whether `x` is among `v`.
pub fn contains_usize(v: &Vec<usize>, x: usize) -> (r: bool)
    ensures
        r == v@.contains(x),
{
    let mut k: usize = 0;
    while k < v.len()
        invariant
            k <= v@.len(),
            forall|m: int| 0 <= m < k ==> v@[m] != x,
        decreases v@.len() - k,
    {
        if v[k] == x {
            assert(v@[k as int] == x);
            return true;
        }
        k = k + 1;
    }
    false
}

/// The lines of a list with one more entry.
pub proof fn lemma_entries_lines_push(v: Seq<SliceEntry>, e: SliceEntry)
    ensures
        entry_lines(v.push(e)) == entry_lines(v).push(e.line as int),
{
    assert(entry_lines(v.push(e)) =~= entry_lines(v).push(e.line as int));
}

/// The lines of a list of slice entries.
pub open spec fn entry_lines(v: Seq<SliceEntry>) -> Seq<int> {
    v.map_values(|e: SliceEntry| e.line as int)
}

/// The facts that the search keeps about the entries found so far.
pub open spec fn entries_ok(t: SyntaxTree, ss: Seq<int>, file: Seq<char>, v: Seq<SliceEntry>) -> bool {
    &&& forall|i: int, j: int| 0 <= i < j < v.len() ==> (#[trigger] v[i]).line != (#[trigger] v[j]).line
    &&& forall|i: int| 0 <= i < v.len() ==> {
        &&& stmt_at(t, ss, (#[trigger] v[i]).line as int) is Some
        &&& entry_view(v[i]) == (file, v[i].line as int, stmt_text(t, stmt_at(t, ss, v[i].line as int).unwrap()))
    }
}

/// The statements of function `f` that line `line` depends on, in the
/// order a depth-first search from the line meets them.
pub fn slice_walk(t: &SyntaxTree, f: usize, file: &str, line: usize) -> (r: Vec<SliceEntry>)
    requires
        t.wf(),
        f < t.len(),
    ensures
        entries_ok(*t, stmts_below(*t, f as int), file@, r@),
        entry_lines(r@).to_set() == slice_lines(*t, f as int, line as int),
{
    let stmts = flatten_stmts(t, f);
    let decls = build_decls(t, f);
    let ghost ss = ints(stmts@);
    let ghost d = decls_below(*t, f as int);
    let ghost dv = decl_views(decls@);
    let ghost vals = decls@.map_values(|e: (String, usize)| e.1);
    let ghost cands: Set<usize> = vals.to_set().insert(line);
    proof {
        vstd::seq_lib::seq_to_set_is_finite(vals);
    }
    let mut results: Vec<SliceEntry> = Vec::new();
    let mut visited: Vec<usize> = Vec::new();
    let mut stack: Vec<usize> = Vec::new();
    stack.push(line);
    proof {
        assert(slice_path(*t, ss, d, seq![line as int]));
        assert(seq![line as int][0] == line as int);
        assert(stack@[0] == line);
        assert(visited@.to_set() =~= Set::<usize>::empty());
    }
    while stack.len() > 0
        invariant
            t.wf(),
            f < t.len(),
            ss == ints(stmts@),
            ss == stmts_below(*t, f as int),
            forall|k: int| 0 <= k < stmts@.len() ==> #[trigger] stmts@[k] < t.len(),
            d == decls_below(*t, f as int),
            dv == decl_views(decls@),
            vals == decls@.map_values(|e: (String, usize)| e.1),
            forall|k: Seq<char>| #[trigger] assoc_get(dv, k) == d(k),
            cands == vals.to_set().insert(line),
            cands.finite(),
            forall|v: usize| #[trigger] visited@.contains(v) ==> cands.contains(v),
            forall|v: usize| #[trigger] stack@.contains(v) ==> cands.contains(v),
            forall|v: usize| #[trigger] visited@.contains(v) ==> slice_reaches(*t, ss, d, line as int, v as int),
            forall|v: usize| #[trigger] stack@.contains(v) ==> slice_reaches(*t, ss, d, line as int, v as int),
            visited@.contains(line) || stack@.contains(line),
            forall|a: usize, b: int| visited@.contains(a) && #[trigger] slice_step(*t, ss, d, a as int, b)
                ==> 0 <= b <= usize::MAX && (visited@.contains(b as usize) || stack@.contains(b as usize)),
            entries_ok(*t, ss, file@, results@),
            forall|l: int| #[trigger] entry_lines(results@).contains(l) <==>
                (0 <= l <= usize::MAX && visited@.contains(l as usize) && stmt_at(*t, ss, l) is Some),
        decreases cands.difference(visited@.to_set()).len(), stack@.len(),
    {
        let ghost st0 = stack@;
        let ghost vis0 = visited@;
        let ghost m0 = cands.difference(visited@.to_set()).len();
        let current = stack.pop().unwrap();
        assert(st0 == stack@.push(current));
        assert(st0.contains(current)) by {
            assert(st0[st0.len() - 1] == current);
        }
        proof {
            assert forall|v: usize| #[trigger] stack@.contains(v) implies st0.contains(v) by {
                let i = choose|i: int| 0 <= i < stack@.len() && stack@[i] == v;
                assert(st0[i] == v);
            }
        }
        if contains_usize(&visited, current) {
            proof {
                assert forall|v: usize| #[trigger] st0.contains(v) implies visited@.contains(v) || stack@.contains(v) by {
                    if v != current {
                        let i = choose|i: int| 0 <= i < st0.len() && st0[i] == v;
                        if i < stack@.len() {
                            assert(stack@[i] == v);
                        }
                    }
                }
            }
        } else {
            let ghost vis1 = visited@.push(current);
            visited.push(current);
            proof {
                assert(visited@.to_set() =~= vis0.to_set().insert(current)) by {
                    vis0.lemma_push_to_set_commute(current);
                }
                assert(cands.difference(visited@.to_set()) =~= cands.difference(vis0.to_set()).remove(current));
                assert(cands.difference(vis0.to_set()).contains(current));
                vstd::set::axiom_set_difference_finite(cands, vis0.to_set());
                vstd::set::axiom_set_remove_len(cands.difference(vis0.to_set()), current);
                assert forall|v: usize| #[trigger] visited@.contains(v) implies vis0.contains(v) || v == current by {
                    let i = choose|i: int| 0 <= i < visited@.len() && visited@[i] == v;
                    if i < vis0.len() {
                        assert(vis0[i] == v);
                    }
                }
                assert(visited@[vis0.len() as int] == current);
                assert forall|v: usize| #[trigger] vis0.contains(v) implies visited@.contains(v) by {
                    let i = choose|i: int| 0 <= i < vis0.len() && vis0[i] == v;
                    assert(visited@[i] == v);
                }
            }
            match find_stmt_at(t, &stmts, current) {
                None => {
                    proof {
                        assert forall|b: int| !slice_step(*t, ss, d, current as int, b) by {}
                        assert forall|v: usize| #[trigger] st0.contains(v) implies visited@.contains(v) || stack@.contains(v) by {
                            if v != current {
                                let i = choose|i: int| 0 <= i < st0.len() && st0[i] == v;
                                if i < stack@.len() {
                                    assert(stack@[i] == v);
                                }
                            }
                        }
                        assert forall|l: int| #[trigger] entry_lines(results@).contains(l) <==>
                            (0 <= l <= usize::MAX && visited@.contains(l as usize) && stmt_at(*t, ss, l) is Some) by {
                            if 0 <= l <= usize::MAX && visited@.contains(l as usize) && l as usize != current {
                                assert(vis0.contains(l as usize));
                            }
                        }
                    }
                },
                Some(st) => {
                    let ghost res0 = results@;
                    let text = match t.text_of(st) {
                        Some(x) => x,
                        None => "?".to_string(),
                    };
                    let entry = SliceEntry { file: file.to_string(), line: current, text };
                    proof {
                        reveal_strlit("?");
                        assert(!entry_lines(res0).contains(current as int));
                    }
                    results.push(entry);
                    proof {
                        lemma_entries_lines_push(res0, entry);
                        assert forall|i: int, j: int| 0 <= i < j < results@.len() implies
                            (#[trigger] results@[i]).line != (#[trigger] results@[j]).line by {
                            if j < res0.len() {
                                assert(results@[i] == res0[i] && results@[j] == res0[j]);
                            } else {
                                assert(results@[i] == res0[i]);
                                assert(entry_lines(res0)[i] == res0[i].line as int);
                                assert(entry_lines(res0).contains(res0[i].line as int));
                            }
                        }
                        assert forall|i: int| 0 <= i < results@.len() implies {
                            &&& stmt_at(*t, ss, (#[trigger] results@[i]).line as int) is Some
                            &&& entry_view(results@[i]) == (file@, results@[i].line as int,
                                stmt_text(*t, stmt_at(*t, ss, results@[i].line as int).unwrap()))
                        } by {
                            if i < res0.len() {
                                assert(results@[i] == res0[i]);
                            }
                        }
                        assert forall|l: int| #[trigger] entry_lines(results@).contains(l) <==>
                            (0 <= l <= usize::MAX && visited@.contains(l as usize) && stmt_at(*t, ss, l) is Some) by {
                            let ls = entry_lines(results@);
                            let l0 = entry_lines(res0);
                            if ls.contains(l) && l != current as int {
                                let i = choose|i: int| 0 <= i < ls.len() && ls[i] == l;
                                assert(l0[i] == l);
                                assert(l0.contains(l));
                            }
                            if l == current as int {
                                assert(ls[res0.len() as int] == l);
                            } else if 0 <= l <= usize::MAX && visited@.contains(l as usize) && stmt_at(*t, ss, l) is Some {
                                assert(vis0.contains(l as usize));
                                assert(l0.contains(l));
                                let i = choose|i: int| 0 <= i < l0.len() && l0[i] == l;
                                assert(ls[i] == l);
                            }
                        }
                    }
                    let ids = extract_identifiers(t, st);
                    let ghost idv = string_views(ids@);
                    let ghost st1 = stack@;
                    let mut k: usize = 0;
                    while k < ids.len()
                        invariant
                            idv == string_views(ids@),
                            idv == idents_below(*t, st as int),
                            k <= ids@.len(),
                            stmt_at(*t, ss, current as int) == Some(st as int),
                            d == decls_below(*t, f as int),
                            dv == decl_views(decls@),
                            vals == decls@.map_values(|e: (String, usize)| e.1),
                            forall|q: Seq<char>| #[trigger] assoc_get(dv, q) == d(q),
                            cands == vals.to_set().insert(line),
                            slice_reaches(*t, ss, d, line as int, current as int),
                            forall|v: usize| #[trigger] st1.contains(v) ==> stack@.contains(v),
                            forall|v: usize| #[trigger] stack@.contains(v) ==> st1.contains(v)
                                || slice_reaches(*t, ss, d, line as int, v as int) && cands.contains(v),
                            forall|j: int| 0 <= j < k && (#[trigger] d(idv[j])) is Some
                                ==> 0 <= d(idv[j]).unwrap() <= usize::MAX && stack@.contains(d(idv[j]).unwrap() as usize),
                        decreases ids@.len() - k,
                    {
                        let ghost sk = stack@;
                        match lookup_decl(&decls, ids[k].as_str()) {
                            Some(dl) => {
                                stack.push(dl);
                                proof {
                                    assert(idv[k as int] == ids@[k as int]@);
                                    assert(d(idv[k as int]) == Some(dl as int));
                                    assert(idv.contains(idv[k as int]));
                                    assert(slice_step(*t, ss, d, current as int, dl as int));
                                    let p = choose|p: Seq<int>| #[trigger] slice_path(*t, ss, d, p) && p[0] == line as int
                                        && p.last() == current as int;
                                    lemma_path_push(*t, ss, d, p, dl as int);
                                    assert(slice_path(*t, ss, d, p.push(dl as int)));
                                    lemma_assoc_value(dv, ids@[k as int]@);
                                    let vi = dl as int;
                                    let dvals = dv.map_values(|e: (Seq<char>, int)| e.1);
                                    assert(dvals.contains(vi));
                                    let i = choose|i: int| 0 <= i < dvals.len() && dvals[i] == vi;
                                    assert(vals[i] == dl);
                                    assert(vals.to_set().contains(dl));
                                    assert(stack@ == sk.push(dl));
                                    assert(stack@[sk.len() as int] == dl);
                                    assert forall|v: usize| #[trigger] stack@.contains(v) implies st1.contains(v)
                                        || slice_reaches(*t, ss, d, line as int, v as int) && cands.contains(v) by {
                                        if v != dl {
                                            let i2 = choose|i2: int| 0 <= i2 < stack@.len() && stack@[i2] == v;
                                            assert(sk[i2] == v);
                                            assert(sk.contains(v));
                                        }
                                    }
                                    assert forall|v: usize| #[trigger] st1.contains(v) implies stack@.contains(v) by {
                                        assert(sk.contains(v));
                                        let i2 = choose|i2: int| 0 <= i2 < sk.len() && sk[i2] == v;
                                        assert(stack@[i2] == v);
                                    }
                                    assert forall|j: int| 0 <= j < k + 1 && (#[trigger] d(idv[j])) is Some
                                        implies 0 <= d(idv[j]).unwrap() <= usize::MAX && stack@.contains(d(idv[j]).unwrap() as usize) by {
                                        let b = d(idv[j]).unwrap();
                                        if j < k {
                                            assert(sk.contains(b as usize));
                                            let i2 = choose|i2: int| 0 <= i2 < sk.len() && sk[i2] == b as usize;
                                            assert(stack@[i2] == b as usize);
                                        }
                                    }
                                }
                            },
                            None => {
                                proof {
                                    assert(idv[k as int] == ids@[k as int]@);
                                }
                            },
                        }
                        k = k + 1;
                    }
                    proof {
                        assert forall|b: int| #[trigger] slice_step(*t, ss, d, current as int, b)
                            implies 0 <= b <= usize::MAX && stack@.contains(b as usize) by {
                            let id = choose|id: Seq<char>| idents_below(*t, st as int).contains(id) && #[trigger] d(id) == Some(b);
                            let j = choose|j: int| 0 <= j < idv.len() && idv[j] == id;
                            assert(d(idv[j]) is Some);
                        }
                        assert(st0 == st1.push(current));
                        assert(visited@.contains(current)) by {
                            assert(visited@[vis0.len() as int] == current);
                        }
                        assert forall|v: usize| #[trigger] st0.contains(v) implies visited@.contains(v) || stack@.contains(v) by {
                            if v != current {
                                let i = choose|i: int| 0 <= i < st0.len() && st0[i] == v;
                                if i < st1.len() {
                                    assert(st1[i] == v);
                                    assert(st1.contains(v));
                                }
                            }
                        }
                    }
                },
            }
        }
    }
    proof {
        let vs = visited@.to_set().map(|v: usize| v as int);
        assert(slice_lines(*t, f as int, line as int) =~= entry_lines(results@).to_set()) by {
            assert forall|l: int| #[trigger] slice_lines(*t, f as int, line as int).contains(l) implies
                entry_lines(results@).to_set().contains(l) by {
                let p = choose|p: Seq<int>| #[trigger] slice_path(*t, ss, d, p) && p[0] == line as int && p.last() == l;
                let vset = Set::new(|x: int| 0 <= x <= usize::MAX && visited@.contains(x as usize));
                assert forall|a: int, b: int| vset.contains(a) && slice_step(*t, ss, d, a, b) implies vset.contains(b) by {
                    assert(visited@.contains(a as usize));
                    assert((a as usize) as int == a);
                    assert(slice_step(*t, ss, d, (a as usize) as int, b));
                }
                assert(vset.contains(p[0]));
                lemma_closed_path(*t, ss, d, vset, p, p.len() - 1);
                assert(entry_lines(results@).contains(l));
            }
            assert forall|l: int| #[trigger] entry_lines(results@).to_set().contains(l) implies
                slice_lines(*t, f as int, line as int).contains(l) by {
                assert(entry_lines(results@).contains(l));
                assert(visited@.contains(l as usize));
            }
        }
    }
    results
}

/// The backward slice of line `line` in `t`, the tree of `file`.
pub fn backward_slice_in(t: &SyntaxTree, file: &str, line: usize) -> (r: Vec<SliceEntry>)
    requires
        t.wf(),
    ensures
        entry_views(r@) == backward_slice_spec(*t, file@, line as int),
{
    let f = match find_containing_function(t, line) {
        Some(f) => f,
        None => {
            return Vec::new();
        },
    };
    let walk = slice_walk(t, f, file, line);
    let sorted = sort_entries_by_line(&walk);
    proof {
        let ss = stmts_below(*t, f as int);
        let w = walk@;
        let v = sorted@;
        assert(w.no_duplicates()) by {
            assert forall|i: int, j: int| 0 <= i < w.len() && 0 <= j < w.len() && i != j implies w[i] != w[j] by {
                if i < j {
                    assert(w[i].line != w[j].line);
                } else {
                    assert(w[j].line != w[i].line);
                }
            }
        }
        w.lemma_multiset_has_no_duplicates();
        v.lemma_multiset_has_no_duplicates_conv();
        w.to_multiset_ensures();
        v.to_multiset_ensures();
        assert forall|i: int| 0 <= i < v.len() implies #[trigger] w.contains(v[i]) by {
            assert(v.contains(v[i]));
            assert(v.to_multiset().count(v[i]) > 0);
            assert(w.to_multiset().count(v[i]) > 0);
        }
        assert(increasing(entry_lines(v))) by {
            assert forall|i: int, j: int| 0 <= i < j < entry_lines(v).len() implies
                #[trigger] entry_lines(v)[i] < #[trigger] entry_lines(v)[j] by {
                assert(v[i].line <= v[j].line);
                assert(w.contains(v[i]) && w.contains(v[j]));
                let a = choose|a: int| 0 <= a < w.len() && w[a] == v[i];
                let b = choose|b: int| 0 <= b < w.len() && w[b] == v[j];
                assert(v[i] != v[j]);
                if a < b {
                    assert(w[a].line != w[b].line);
                } else {
                    assert(w[b].line != w[a].line);
                }
            }
        }
        assert(entry_lines(v).to_set() =~= entry_lines(w).to_set()) by {
            assert forall|l: int| entry_lines(v).to_set().contains(l) implies entry_lines(w).to_set().contains(l) by {
                let i = choose|i: int| 0 <= i < entry_lines(v).len() && entry_lines(v)[i] == l;
                assert(w.contains(v[i]));
                let a = choose|a: int| 0 <= a < w.len() && w[a] == v[i];
                assert(entry_lines(w)[a] == l);
            }
            assert forall|l: int| entry_lines(w).to_set().contains(l) implies entry_lines(v).to_set().contains(l) by {
                let a = choose|a: int| 0 <= a < entry_lines(w).len() && entry_lines(w)[a] == l;
                assert(w.contains(w[a]));
                assert(w.to_multiset().count(w[a]) > 0);
                assert(v.to_multiset().count(w[a]) > 0);
                assert(v.contains(w[a]));
                let i = choose|i: int| 0 <= i < v.len() && v[i] == w[a];
                assert(entry_lines(v)[i] == l);
            }
        }
        lemma_is_sorted_ints(entry_lines(v));
        let sl = sorted_ints(slice_lines(*t, f as int, line as int));
        assert(entry_views(v) =~= sl.map_values(|l: int| (file@, l, stmt_text(*t, stmt_at(*t, ss, l).unwrap())))) by {
            assert forall|i: int| 0 <= i < v.len() implies entry_views(v)[i] ==
                (file@, sl[i], stmt_text(*t, stmt_at(*t, ss, sl[i]).unwrap())) by {
                assert(entry_lines(v)[i] == v[i].line as int);
                assert(w.contains(v[i]));
                let a = choose|a: int| 0 <= a < w.len() && w[a] == v[i];
                assert(entry_view(w[a]) == (file@, w[a].line as int, stmt_text(*t, stmt_at(*t, ss, w[a].line as int).unwrap())));
            }
        }
    }
    sorted
}

/// The backward slice of line `line` (one-based) of a parsed file: in the
/// first function that spans the line, the statements that the line
/// depends on through the declarations of the names it uses, transitively,
/// by increasing line.
pub fn backward_slice(source: &str, tree: &tree_sitter::Tree, file: &str, line: usize) -> (r: Vec<SliceEntry>)
    ensures
        exists|t: SyntaxTree| models(t, *tree, source@)
            && entry_views(r@) == #[trigger] backward_slice_spec(t, file@, line as int),
{
    match syntax_tree_from(tree, source) {
        Some(t) => backward_slice_in(&t, file, line),
        None => Vec::new(),
    }
}

/// The name of function node `f`: the text of its `name` field.
pub open spec fn function_name_of(t: SyntaxTree, f: int) -> Option<Seq<char>> {
    match t.field_child(f, "name"@) {
        Some(c) => t.text(c),
        None => None,
    }
}

/// The name of the first function that spans line `line`.
pub open spec fn containing_function_name(t: SyntaxTree, line: int) -> Option<Seq<char>> {
    match containing_function(t, line) {
        Some(f) => function_name_of(t, f),
        None => None,
    }
}

/// The name of the first function that spans line `line`.
pub fn find_containing_function_name(t: &SyntaxTree, line: usize) -> (r: Option<String>)
    requires
        t.wf(),
    ensures
        opt_view(r) == containing_function_name(*t, line as int),
{
    match find_containing_function(t, line) {
        Some(f) => match t.child_by_field(f, "name") {
            Some(c) => t.text_of(c),
            None => None,
        },
        None => None,
    }
}

/// The function definition at node `i` with its node.
pub open spec fn function_entry(t: SyntaxTree) -> spec_fn(int) -> Option<(Seq<char>, int, int)> {
    |i: int| match function_def(t, i) {
        Some(d) => Some((d.0, d.1, i)),
        None => None,
    }
}

/// The functions of the tree with their lines and nodes, in pre-order.
pub open spec fn functions_of(t: SyntaxTree) -> Seq<(Seq<char>, int, int)> {
    collect_some(function_entry(t), 0, t.len())
}

/// The functions of the tree: name, line and node, in pre-order.
pub fn collect_functions(t: &SyntaxTree) -> (r: Vec<(String, usize, usize)>)
    requires
        t.wf(),
    ensures
        r@.map_values(|e: (String, usize, usize)| (e.0@, e.1 as int, e.2 as int)) == functions_of(*t),
        forall|k: int| 0 <= k < r@.len() ==> (#[trigger] r@[k]).2 < t.len(),
{
    let ghost f = function_entry(*t);
    let mut r: Vec<(String, usize, usize)> = Vec::new();
    let mut i: usize = 0;
    while i < t.nodes.len()
        invariant
            t.wf(),
            i <= t.len(),
            f == function_entry(*t),
            r@.map_values(|e: (String, usize, usize)| (e.0@, e.1 as int, e.2 as int)) == collect_some(f, 0, i as int),
            forall|k: int| 0 <= k < r@.len() ==> (#[trigger] r@[k]).2 < t.len(),
        decreases t.len() - i,
    {
        assert(t.node_ok(i as int));
        if t.nodes[i].named && t.kind_is(i, "function_item") {
            match t.child_by_field(i, "name") {
                Some(c) => match t.text_of(c) {
                    Some(name) => {
                        r.push((name, t.nodes[i].start_row + 1, i));
                    },
                    None => {},
                },
                None => {},
            }
        }
        assert(r@.map_values(|e: (String, usize, usize)| (e.0@, e.1 as int, e.2 as int)) =~= collect_some(f, 0, i + 1));
        i = i + 1;
    }
    r
}

/// The node of the first function in `fs` named `g`.
pub open spec fn function_named_in(fs: Seq<(Seq<char>, int, int)>, g: Seq<char>) -> Option<int>
    decreases fs.len(),
{
    if fs.len() == 0 {
        None
    } else if fs[0].0 == g {
        Some(fs[0].2)
    } else {
        function_named_in(fs.drop_first(), g)
    }
}

/// The name that statement `s` calls first: in pre-order over its own
/// subtree, the first named `call_expression` whose `function` field has a
/// known text.
pub open spec fn callee_from(t: SyntaxTree, s: int, j: int) -> Option<Seq<char>>
    decreases t.end(s) - j,
{
    if j < s || j >= t.end(s) || j >= t.len() {
        None
    } else if t.named(j) && t.kind(j) == "call_expression"@ && t.field_child(j, "function"@) is Some
        && t.text(t.field_child(j, "function"@).unwrap()) is Some {
        t.text(t.field_child(j, "function"@).unwrap())
    } else {
        callee_from(t, s, j + 1)
    }
}

pub open spec fn callee_in(t: SyntaxTree, s: int) -> Option<Seq<char>> {
    callee_from(t, s, s)
}

/// The name that statement `s` calls first.
pub fn find_callee_in_stmt(t: &SyntaxTree, s: usize) -> (r: Option<String>)
    requires
        t.wf(),
        s < t.len(),
    ensures
        opt_view(r) == callee_in(*t, s as int),
        r matches Some(c) ==> exists|j: int| 0 <= j < t.len() && t.text(j) == Some(c@),
{
    assert(t.node_ok(s as int));
    let stop = t.nodes[s].end;
    let mut j: usize = s;
    while j < stop
        invariant
            t.wf(),
            s <= j <= stop,
            stop as int == t.end(s as int),
            stop <= t.len(),
            callee_in(*t, s as int) == callee_from(*t, s as int, j as int),
        decreases stop - j,
    {
        if t.nodes[j].named && t.kind_is(j, "call_expression") {
            match t.child_by_field(j, "function") {
                Some(c) => match t.text_of(c) {
                    Some(name) => {
                        return Some(name);
                    },
                    None => {},
                },
                None => {},
            }
        }
        j = j + 1;
    }
    None
}

/// The named children of the `block` children of `f`, in order.
pub open spec fn block_items(t: SyntaxTree, cs: Seq<int>) -> Seq<int>
    decreases cs.len(),
{
    if cs.len() == 0 {
        Seq::empty()
    } else {
        let c = cs.last();
        block_items(t, cs.drop_last()) + if t.named(c) && t.kind(c) == "block"@ {
            t.children(c).filter(|x: int| t.named(x))
        } else {
            Seq::empty()
        }
    }
}

/// The line a call into function `f` returns from: its first `return`
/// statement, or else the last named item of its body.
pub open spec fn return_line(t: SyntaxTree, f: int) -> Option<int> {
    match first_where(stmts_below(t, f), |s: int| t.kind(s) == "return_statement"@) {
        Some(s) => Some(t.line(s)),
        None => {
            let items = block_items(t, t.children(f));
            if items.len() > 0 { Some(t.line(items.last())) } else { None }
        },
    }
}

/// The line a call into function `f` returns from.
pub fn find_return_line(t: &SyntaxTree, f: usize) -> (r: Option<usize>)
    requires
        t.wf(),
        f < t.len(),
    ensures
        opt_int(r) == return_line(*t, f as int),
        r matches Some(x) ==> exists|j: int| 0 <= j < t.len() && t.line(j) == x,
{
    let stmts = flatten_stmts(t, f);
    let ghost all = ints(stmts@);
    let ghost p = |s: int| t.kind(s) == "return_statement"@;
    assert(all.subrange(0, all.len() as int) =~= all);
    let mut k: usize = 0;
    while k < stmts.len()
        invariant
            k <= stmts@.len(),
            all == ints(stmts@),
            all == stmts_below(*t, f as int),
            p == (|s: int| t.kind(s) == "return_statement"@),
            forall|m: int| 0 <= m < stmts@.len() ==> #[trigger] stmts@[m] < t.len(),
            first_where(all, p) == first_where(all.subrange(k as int, all.len() as int), p),
            t.wf(),
        decreases stmts@.len() - k,
    {
        let s = stmts[k];
        let ghost rest = all.subrange(k as int, all.len() as int);
        assert(rest[0] == s as int);
        assert(rest.drop_first() =~= all.subrange(k + 1, all.len() as int));
        if t.kind_is(s, "return_statement") {
            assert(t.node_ok(s as int));
            assert(0 <= s < t.len() && t.line(s as int) == t.nodes@[s as int].start_row + 1);
            return Some(t.nodes[s].start_row + 1);
        }
        k = k + 1;
    }
    assert(all.subrange(k as int, all.len() as int).len() == 0);
    let cs = t.children_of(f);
    let ghost call = ints(cs@);
    let mut last: Option<usize> = None;
    let mut i: usize = 0;
    assert(call.take(0) =~= Seq::<int>::empty());
    while i < cs.len()
        invariant
            t.wf(),
            i <= cs@.len(),
            call == ints(cs@),
            call == t.children(f as int),
            forall|m: int| 0 <= m < cs@.len() ==> #[trigger] cs@[m] < t.len(),
            match last {
                Some(x) => block_items(*t, call.take(i as int)).len() > 0
                    && x as int == block_items(*t, call.take(i as int)).last() && x < t.len(),
                None => block_items(*t, call.take(i as int)).len() == 0,
            },
        decreases cs@.len() - i,
    {
        let c = cs[i];
        assert(call.take(i + 1).drop_last() =~= call.take(i as int));
        assert(call.take(i + 1).last() == c as int);
        let ghost before = block_items(*t, call.take(i as int));
        if t.nodes[c].named && t.kind_is(c, "block") {
            let inner = t.children_of(c);
            let ghost iall = ints(inner@);
            let ghost pn = |x: int| t.named(x);
            let ghost last0 = last;
            let mut j: usize = 0;
            assert(iall.take(0) =~= Seq::<int>::empty());
            assert(iall.take(0).filter(pn) =~= Seq::<int>::empty()) by {
                reveal(Seq::filter);
            }
            while j < inner.len()
                invariant
                    t.wf(),
                    j <= inner@.len(),
                    iall == ints(inner@),
                    pn == (|x: int| t.named(x)),
                    forall|m: int| 0 <= m < inner@.len() ==> #[trigger] inner@[m] < t.len(),
                    iall.take(j as int).filter(pn).len() > 0 ==> (last matches Some(x)
                        && x as int == iall.take(j as int).filter(pn).last() && x < t.len()),
                    iall.take(j as int).filter(pn).len() == 0 ==> last == last0,
                decreases inner@.len() - j,
            {
                let d = inner[j];
                proof {
                    assert(iall.take(j + 1) =~= iall.take(j as int).push(d as int));
                    iall.take(j as int).lemma_filter_push(d as int, pn);
                }
                if t.nodes[d].named {
                    last = Some(d);
                }
                j = j + 1;
            }
            assert(iall.take(inner@.len() as int) =~= iall);
            assert(iall == t.children(c as int));
            proof {
                let fl = iall.filter(pn);
                assert(block_items(*t, call.take(i + 1)) == before + fl);
                if fl.len() > 0 {
                    assert((before + fl).last() == fl.last());
                }
            }
        } else {
            assert(block_items(*t, call.take(i + 1)) =~= before);
        }
        i = i + 1;
    }
    assert(call.take(cs@.len() as int) =~= call);
    match last {
        Some(x) => {
            assert(t.node_ok(x as int));
            assert(0 <= x < t.len() && t.line(x as int) == t.nodes@[x as int].start_row + 1);
            Some(t.nodes[x].start_row + 1)
        },
        None => None,
    }
}

/// The views of a list of keys `(function, line)`.
pub open spec fn key_views(v: Seq<(String, usize)>) -> Seq<(Seq<char>, int)> {
    v.map_values(|p: (String, usize)| (p.0@, p.1 as int))
}

/// The views of a list with one more key.
pub proof fn lemma_keys_push(v: Seq<(String, usize)>, x: (String, usize))
    ensures
        key_views(v.push(x)) == key_views(v).push((x.0@, x.1 as int)),
{
    assert(key_views(v.push(x)) =~= key_views(v).push((x.0@, x.1 as int)));
}

/// Whether the key `(g, l)` is among `v`.
fn key_listed(v: &Vec<(String, usize)>, g: &str, l: usize) -> (r: bool)
    ensures
        r == key_views(v@).contains((g@, l as int)),
{
    let ghost kv = key_views(v@);
    let mut k: usize = 0;
    while k < v.len()
        invariant
            kv == key_views(v@),
            k <= v@.len(),
            forall|m: int| 0 <= m < k ==> kv[m] != (g@, l as int),
        decreases v@.len() - k,
    {
        if v[k].1 == l && str_equal(v[k].0.as_str(), g) {
            assert(kv[k as int] == (g@, l as int));
            return true;
        }
        k = k + 1;
    }
    false
}

/// The node of the first function in `fs` named `g`.
fn find_function_named(fs: &Vec<(String, usize, usize)>, g: &str) -> (r: Option<usize>)
    ensures
        opt_int(r) == function_named_in(fs@.map_values(|e: (String, usize, usize)| (e.0@, e.1 as int, e.2 as int)), g@),
        r matches Some(x) ==> exists|k: int| 0 <= k < fs@.len() && fs@[k].2 == x,
{
    let ghost all = fs@.map_values(|e: (String, usize, usize)| (e.0@, e.1 as int, e.2 as int));
    assert(all.subrange(0, all.len() as int) =~= all);
    let mut k: usize = 0;
    while k < fs.len()
        invariant
            k <= fs@.len(),
            all == fs@.map_values(|e: (String, usize, usize)| (e.0@, e.1 as int, e.2 as int)),
            function_named_in(all, g@) == function_named_in(all.subrange(k as int, all.len() as int), g@),
        decreases fs@.len() - k,
    {
        let ghost rest = all.subrange(k as int, all.len() as int);
        assert(rest[0] == all[k as int]);
        assert(rest.drop_first() =~= all.subrange(k + 1, all.len() as int));
        if str_equal(fs[k].0.as_str(), g) {
            return Some(fs[k].2);
        }
        k = k + 1;
    }
    None
}

/// The line from which the function named `name` returns, when the file
/// defines such a function and it has one.
pub open spec fn callee_return(t: SyntaxTree, name: Seq<char>) -> Option<int> {
    match function_named_in(functions_of(t), name) {
        Some(cf) => return_line(t, cf),
        None => None,
    }
}

/// One function-and-line key leads to another: a statement of the first
/// key's slice calls the second key's function, which returns from the
/// second key's line.
pub open spec fn key_step(t: SyntaxTree, a: (Seq<char>, int), b: (Seq<char>, int)) -> bool {
    match function_named_in(functions_of(t), a.0) {
        Some(gf) => exists|l: int| #![trigger slice_lines(t, gf, a.1).contains(l)]
            slice_lines(t, gf, a.1).contains(l)
            && callee_in(t, stmt_at(t, stmts_below(t, gf), l).unwrap()) == Some(b.0)
            && callee_return(t, b.0) == Some(b.1),
        None => false,
    }
}

pub open spec fn key_path(t: SyntaxTree, p: Seq<(Seq<char>, int)>) -> bool {
    &&& p.len() > 0
    &&& forall|i: int| 0 <= i < p.len() - 1 ==> key_step(t, #[trigger] p[i], p[i + 1])
}

/// Key `k` is reached from key `start`.
pub open spec fn key_reaches(t: SyntaxTree, start: (Seq<char>, int), k: (Seq<char>, int)) -> bool {
    exists|p: Seq<(Seq<char>, int)>| #[trigger] key_path(t, p) && p[0] == start && p.last() == k
}

/// `x` is an entry of the slice that key `k` gives: a statement of the
/// key's function that the key's line depends on.
pub open spec fn local_entry(t: SyntaxTree, file: Seq<char>, k: (Seq<char>, int), x: (Seq<char>, int, Seq<char>)) -> bool {
    match function_named_in(functions_of(t), k.0) {
        Some(gf) => slice_lines(t, gf, k.1).contains(x.1)
            && x == (file, x.1, stmt_text(t, stmt_at(t, stmts_below(t, gf), x.1).unwrap())),
        None => false,
    }
}

/// A chain of keys extended by one step.
pub proof fn lemma_key_path_push(t: SyntaxTree, p: Seq<(Seq<char>, int)>, w: (Seq<char>, int))
    requires
        key_path(t, p),
        key_step(t, p.last(), w),
    ensures
        key_path(t, p.push(w)),
        p.push(w)[0] == p[0],
        p.push(w).last() == w,
{
    let q = p.push(w);
    assert forall|i: int| 0 <= i < q.len() - 1 implies key_step(t, #[trigger] q[i], q[i + 1]) by {
        if i < p.len() - 1 {
            assert(q[i] == p[i] && q[i + 1] == p[i + 1]);
        } else {
            assert(q[i] == p.last());
        }
    }
}

/// Every key of a chain that starts in a set closed under the steps lies in
/// the set.
pub proof fn lemma_key_closed_path(t: SyntaxTree, vs: Set<(Seq<char>, int)>, p: Seq<(Seq<char>, int)>, i: int)
    requires
        key_path(t, p),
        vs.contains(p[0]),
        forall|a: (Seq<char>, int), b: (Seq<char>, int)| vs.contains(a) && #[trigger] key_step(t, a, b) ==> vs.contains(b),
        0 <= i < p.len(),
    ensures
        vs.contains(p[i]),
    decreases i,
{
    if i > 0 {
        lemma_key_closed_path(t, vs, p, i - 1);
        assert(key_step(t, p[i - 1], p[i]));
    }
}

/// The pairs of a list of names and a finite set of lines are finitely many.
pub proof fn lemma_pairs_finite(ns: Seq<Seq<char>>, ls: Set<int>)
    requires
        ls.finite(),
    ensures
        Set::new(|p: (Seq<char>, int)| ns.contains(p.0) && ls.contains(p.1)).finite(),
    decreases ns.len(),
{
    let all = Set::new(|p: (Seq<char>, int)| ns.contains(p.0) && ls.contains(p.1));
    if ns.len() == 0 {
        assert(all =~= Set::<(Seq<char>, int)>::empty());
    } else {
        let a = ns.last();
        let front = ns.drop_last();
        lemma_pairs_finite(front, ls);
        let s0 = Set::new(|p: (Seq<char>, int)| front.contains(p.0) && ls.contains(p.1));
        let s1 = ls.map(|b: int| (a, b));
        ls.lemma_map_finite(|b: int| (a, b));
        assert(all =~= s0 + s1) by {
            assert forall|p: (Seq<char>, int)| all.contains(p) implies (s0 + s1).contains(p) by {
                let i = choose|i: int| 0 <= i < ns.len() && ns[i] == p.0;
                if i < ns.len() - 1 {
                    assert(front[i] == p.0);
                } else {
                    assert(s1.contains((a, p.1)));
                }
            }
            assert forall|p: (Seq<char>, int)| (s0 + s1).contains(p) implies all.contains(p) by {
                if s0.contains(p) {
                    let i = choose|i: int| 0 <= i < front.len() && front[i] == p.0;
                    assert(ns[i] == p.0);
                } else {
                    let b = choose|b: int| ls.contains(b) && (a, b) == p;
                    assert(ns[ns.len() - 1] == a);
                }
            }
        }
    }
}

/// `x` belongs to the slice of some key reached from `start`.
pub open spec fn reached_entry(t: SyntaxTree, file: Seq<char>, start: (Seq<char>, int), x: (Seq<char>, int, Seq<char>)) -> bool {
    exists|k: (Seq<char>, int)| key_reaches(t, start, k) && #[trigger] local_entry(t, file, k, x)
}

/// `x` is the view of an entry of `v`.
pub open spec fn found_in(v: Seq<SliceEntry>, x: (Seq<char>, int, Seq<char>)) -> bool {
    exists|i: int| 0 <= i && i < v.len() && #[trigger] entry_view(v[i]) == x
}

/// The facts that hold of a cross-function slice of `t` from key `start`:
/// every entry belongs to the slice of a key reached from the start, and
/// every entry of such a slice is there.
pub open spec fn cross_slice_ok(t: SyntaxTree, file: Seq<char>, start: (Seq<char>, int), v: Seq<SliceEntry>) -> bool {
    &&& forall|i: int| 0 <= i && i < v.len() ==> #[trigger] reached_entry(t, file, start, entry_view(v[i]))
    &&& forall|k: (Seq<char>, int), x: (Seq<char>, int, Seq<char>)|
        #![trigger key_reaches(t, start, k), local_entry(t, file, k, x)]
        key_reaches(t, start, k) && local_entry(t, file, k, x) ==> found_in(v, x)
}

/// The number of entries of `v` whose view is `x`.
pub open spec fn view_count(v: Seq<SliceEntry>, x: (Seq<char>, int, Seq<char>)) -> nat
    decreases v.len(),
{
    if v.len() == 0 {
        0
    } else {
        view_count(v.drop_last(), x) + if entry_view(v.last()) == x { 1nat } else { 0nat }
    }
}

/// The number of keys of `vis` whose slice holds `x`.
pub open spec fn key_count(t: SyntaxTree, file: Seq<char>, vis: Seq<(Seq<char>, int)>, x: (Seq<char>, int, Seq<char>)) -> nat
    decreases vis.len(),
{
    if vis.len() == 0 {
        0
    } else {
        key_count(t, file, vis.drop_last(), x) + if local_entry(t, file, vis.last(), x) { 1nat } else { 0nat }
    }
}

/// `vis` lists each key reached from `start` once, and no other key.
pub open spec fn enumerates_reached(t: SyntaxTree, start: (Seq<char>, int), vis: Seq<(Seq<char>, int)>) -> bool {
    &&& vis.no_duplicates()
    &&& forall|k: (Seq<char>, int)| #[trigger] vis.contains(k) <==> key_reaches(t, start, k)
}

/// Each view occurs in `v` as often as there are keys reached from `start`
/// whose slice holds it.
pub open spec fn cross_counts(t: SyntaxTree, file: Seq<char>, start: (Seq<char>, int), v: Seq<SliceEntry>) -> bool {
    exists|vis: Seq<(Seq<char>, int)>| #[trigger] enumerates_reached(t, start, vis)
        && forall|x: (Seq<char>, int, Seq<char>)| #[trigger] view_count(v, x) == key_count(t, file, vis, x)
}

proof fn lemma_view_count_concat(a: Seq<SliceEntry>, b: Seq<SliceEntry>, x: (Seq<char>, int, Seq<char>))
    ensures
        view_count(a + b, x) == view_count(a, x) + view_count(b, x),
    decreases b.len(),
{
    if b.len() == 0 {
        assert(a + b =~= a);
    } else {
        assert((a + b).drop_last() =~= a + b.drop_last());
        assert((a + b).last() == b.last());
        lemma_view_count_concat(a, b.drop_last(), x);
    }
}

proof fn lemma_view_count_one(e: SliceEntry, x: (Seq<char>, int, Seq<char>))
    ensures
        view_count(seq![e], x) == if entry_view(e) == x { 1nat } else { 0nat },
{
    assert(seq![e].drop_last() =~= Seq::<SliceEntry>::empty());
    assert(view_count(Seq::<SliceEntry>::empty(), x) == 0);
    assert(seq![e].last() == e);
}

/// Sorting by line keeps the number of each view.
proof fn lemma_view_count_sorted(s: Seq<SliceEntry>, x: (Seq<char>, int, Seq<char>))
    ensures
        view_count(sort_by_line_spec(s), x) == view_count(s, x),
    decreases s.len(),
{
    if s.len() > 0 {
        let e = s.last();
        let p = sort_by_line_spec(s.drop_last());
        lemma_view_count_sorted(s.drop_last(), x);
        lemma_ins_by_line(p, e);
        let k = ins_pos(p, e);
        assert(p.insert(k, e) =~= p.take(k) + seq![e] + p.skip(k));
        assert(p =~= p.take(k) + p.skip(k));
        lemma_view_count_concat(p.take(k) + seq![e], p.skip(k), x);
        lemma_view_count_concat(p.take(k), seq![e], x);
        lemma_view_count_concat(p.take(k), p.skip(k), x);
        lemma_view_count_one(e, x);
    }
}

/// A view is counted in `v` exactly when some entry has it.
proof fn lemma_view_count_pos(v: Seq<SliceEntry>, x: (Seq<char>, int, Seq<char>))
    ensures
        view_count(v, x) > 0 <==> exists|i: int| 0 <= i < v.len() && #[trigger] entry_view(v[i]) == x,
    decreases v.len(),
{
    if v.len() > 0 {
        lemma_view_count_pos(v.drop_last(), x);
        if exists|i: int| 0 <= i < v.len() && #[trigger] entry_view(v[i]) == x {
            let i = choose|i: int| 0 <= i < v.len() && #[trigger] entry_view(v[i]) == x;
            if i < v.len() - 1 {
                assert(entry_view(v.drop_last()[i]) == x);
            }
        }
        if view_count(v.drop_last(), x) > 0 {
            let i = choose|i: int| 0 <= i < v.drop_last().len() && #[trigger] entry_view(v.drop_last()[i]) == x;
            assert(entry_view(v[i]) == x);
        }
        if entry_view(v.last()) == x {
            assert(entry_view(v[v.len() - 1]) == x);
        }
    }
}

/// In entries on distinct lines a view is counted at most once.
proof fn lemma_view_count_at_most_one(v: Seq<SliceEntry>, x: (Seq<char>, int, Seq<char>))
    requires
        forall|i: int, j: int| 0 <= i < j < v.len() ==> (#[trigger] v[i]).line != (#[trigger] v[j]).line,
    ensures
        view_count(v, x) <= 1,
    decreases v.len(),
{
    if v.len() > 0 {
        let init = v.drop_last();
        assert forall|i: int, j: int| 0 <= i < j < init.len() implies (#[trigger] init[i]).line != (#[trigger] init[j]).line by {
            assert(init[i] == v[i] && init[j] == v[j]);
        }
        lemma_view_count_at_most_one(init, x);
        if entry_view(v.last()) == x {
            lemma_view_count_pos(init, x);
            if view_count(init, x) > 0 {
                let i = choose|i: int| 0 <= i < init.len() && #[trigger] entry_view(init[i]) == x;
                assert(v[i] == init[i]);
                assert(v[i].line != v[v.len() - 1].line);
            }
        }
    }
}

/// The walk of a key holds each entry of the key's slice once and nothing
/// else.
proof fn lemma_walk_count(
    t: SyntaxTree, file: Seq<char>, key: (Seq<char>, int), gf: int, w: Seq<SliceEntry>,
    x: (Seq<char>, int, Seq<char>),
)
    requires
        function_named_in(functions_of(t), key.0) == Some(gf),
        entries_ok(t, stmts_below(t, gf), file, w),
        entry_lines(w).to_set() == slice_lines(t, gf, key.1),
    ensures
        view_count(w, x) == if local_entry(t, file, key, x) { 1nat } else { 0nat },
{
    lemma_view_count_at_most_one(w, x);
    lemma_view_count_pos(w, x);
    let ss = stmts_below(t, gf);
    if local_entry(t, file, key, x) {
        assert(entry_lines(w).to_set().contains(x.1));
        let i = choose|i: int| 0 <= i < entry_lines(w).len() && entry_lines(w)[i] == x.1;
        assert(w[i].line as int == x.1);
        assert(entry_view(w[i]) == (file, w[i].line as int, stmt_text(t, stmt_at(t, ss, w[i].line as int).unwrap())));
        assert(entry_view(w[i]) == x);
    } else {
        if view_count(w, x) > 0 {
            let i = choose|i: int| 0 <= i < w.len() && #[trigger] entry_view(w[i]) == x;
            assert(entry_lines(w)[i] == w[i].line as int);
            assert(entry_lines(w).to_set().contains(w[i].line as int));
            assert(entry_view(w[i]) == (file, w[i].line as int, stmt_text(t, stmt_at(t, ss, w[i].line as int).unwrap())));
        }
    }
}

/// What the search across functions keeps: the keys met lie among the
/// candidates and are reached from the start; the start has been met; the
/// steps from a visited key lead to keys met; each entry found belongs to
/// the slice of the visited key noted for it; and the slice of each visited
/// key has all its entries found.
#[verifier::opaque]
pub open spec fn cross_inv(
    t: SyntaxTree,
    file: Seq<char>,
    start: (Seq<char>, int),
    cands: Set<(Seq<char>, int)>,
    vis: Seq<(Seq<char>, int)>,
    st: Seq<(Seq<char>, int)>,
    all: Seq<SliceEntry>,
    owners: Seq<int>,
) -> bool {
    &&& forall|k: (Seq<char>, int)| #[trigger] vis.contains(k) ==> cands.contains(k) && key_reaches(t, start, k)
    &&& forall|k: (Seq<char>, int)| #[trigger] st.contains(k) ==> cands.contains(k) && key_reaches(t, start, k)
    &&& vis.contains(start) || st.contains(start)
    &&& forall|a: (Seq<char>, int), b: (Seq<char>, int)| vis.contains(a) && #[trigger] key_step(t, a, b)
        ==> vis.contains(b) || st.contains(b)
    &&& owners.len() == all.len()
    &&& forall|i: int| #![trigger owners[i]] 0 <= i && i < all.len() ==>
        0 <= owners[i] && owners[i] < vis.len() && local_entry(t, file, vis[owners[i]], entry_view(all[i]))
    &&& forall|k: (Seq<char>, int), x: (Seq<char>, int, Seq<char>)|
        #![trigger vis.contains(k), local_entry(t, file, k, x)]
        vis.contains(k) && local_entry(t, file, k, x)
        ==> exists|i: int| 0 <= i < all.len() && #[trigger] entry_view(all[i]) == x
}

/// Popping a key that was visited before keeps the search's facts.
proof fn lemma_cross_pop_seen(
    t: SyntaxTree, file: Seq<char>, start: (Seq<char>, int), cands: Set<(Seq<char>, int)>,
    vis: Seq<(Seq<char>, int)>, st1: Seq<(Seq<char>, int)>, key: (Seq<char>, int),
    all: Seq<SliceEntry>, owners: Seq<int>,
)
    requires
        cross_inv(t, file, start, cands, vis, st1.push(key), all, owners),
        vis.contains(key),
    ensures
        cross_inv(t, file, start, cands, vis, st1, all, owners),
{
    reveal(cross_inv);
    let st0 = st1.push(key);
    assert forall|k: (Seq<char>, int)| #[trigger] st1.contains(k) implies st0.contains(k) by {
        let i = choose|i: int| 0 <= i < st1.len() && st1[i] == k;
        assert(st0[i] == k);
    }
    assert forall|k: (Seq<char>, int)| #[trigger] st0.contains(k) implies st1.contains(k) || k == key by {
        let i = choose|i: int| 0 <= i < st0.len() && st0[i] == k;
        if i < st1.len() {
            assert(st1[i] == k);
        }
    }
    assert forall|a: (Seq<char>, int), b: (Seq<char>, int)| vis.contains(a) && #[trigger] key_step(t, a, b)
        implies vis.contains(b) || st1.contains(b) by {
        assert(vis.contains(b) || st0.contains(b));
    }
}

/// Facts about the key popped from the stack.
proof fn lemma_cross_popped(
    t: SyntaxTree, file: Seq<char>, start: (Seq<char>, int), cands: Set<(Seq<char>, int)>,
    vis: Seq<(Seq<char>, int)>, st1: Seq<(Seq<char>, int)>, key: (Seq<char>, int),
    all: Seq<SliceEntry>, owners: Seq<int>,
)
    requires
        cross_inv(t, file, start, cands, vis, st1.push(key), all, owners),
    ensures
        key_reaches(t, start, key),
        cands.contains(key),
{
    reveal(cross_inv);
    assert(st1.push(key)[st1.len() as int] == key);
    assert(st1.push(key).contains(key));
}

/// Popping a new key whose function is not found: the key is visited, and
/// nothing is added.
proof fn lemma_cross_pop_nofunc(
    t: SyntaxTree, file: Seq<char>, start: (Seq<char>, int), cands: Set<(Seq<char>, int)>,
    vis: Seq<(Seq<char>, int)>, st1: Seq<(Seq<char>, int)>, key: (Seq<char>, int),
    all: Seq<SliceEntry>, owners: Seq<int>,
)
    requires
        cross_inv(t, file, start, cands, vis, st1.push(key), all, owners),
        function_named_in(functions_of(t), key.0) is None,
    ensures
        cross_inv(t, file, start, cands, vis.push(key), st1, all, owners),
{
    reveal(cross_inv);
    let st0 = st1.push(key);
    let vis1 = vis.push(key);
    assert(st0[st1.len() as int] == key);
    assert(vis1[vis.len() as int] == key);
    assert forall|k: (Seq<char>, int)| #[trigger] st1.contains(k) implies st0.contains(k) by {
        let i = choose|i: int| 0 <= i < st1.len() && st1[i] == k;
        assert(st0[i] == k);
    }
    assert forall|k: (Seq<char>, int)| #[trigger] st0.contains(k) implies st1.contains(k) || k == key by {
        let i = choose|i: int| 0 <= i < st0.len() && st0[i] == k;
        if i < st1.len() {
            assert(st1[i] == k);
        }
    }
    assert forall|k: (Seq<char>, int)| #[trigger] vis1.contains(k) implies vis.contains(k) || k == key by {
        let i = choose|i: int| 0 <= i < vis1.len() && vis1[i] == k;
        if i < vis.len() {
            assert(vis[i] == k);
        }
    }
    assert forall|k: (Seq<char>, int)| #[trigger] vis.contains(k) implies vis1.contains(k) by {
        let i = choose|i: int| 0 <= i < vis.len() && vis[i] == k;
        assert(vis1[i] == k);
    }
    assert forall|a: (Seq<char>, int), b: (Seq<char>, int)| vis1.contains(a) && #[trigger] key_step(t, a, b)
        implies vis1.contains(b) || st1.contains(b) by {
        if a != key {
            assert(vis.contains(a));
            assert(vis.contains(b) || st0.contains(b));
        }
    }
    assert(st0.contains(key));
    assert forall|k: (Seq<char>, int)| #[trigger] vis1.contains(k) implies cands.contains(k) && key_reaches(t, start, k) by {
        if k == key {
            assert(st0.contains(key));
        } else {
            assert(vis.contains(k));
        }
    }
    assert(vis1.contains(start) || st1.contains(start)) by {
        if st0.contains(start) && start != key {
            assert(st1.contains(start));
        }
        if vis.contains(start) {
            assert(vis1.contains(start));
        }
    }
    assert forall|i: int| #![trigger owners[i]] 0 <= i && i < all.len() implies
        0 <= owners[i] && owners[i] < vis1.len() && local_entry(t, file, vis1[owners[i]], entry_view(all[i])) by {
        assert(vis1[owners[i]] == vis[owners[i]]);
    }
    assert forall|k: (Seq<char>, int), x: (Seq<char>, int, Seq<char>)|
        #![trigger vis1.contains(k), local_entry(t, file, k, x)]
        vis1.contains(k) && local_entry(t, file, k, x)
        implies exists|i: int| 0 <= i < all.len() && #[trigger] entry_view(all[i]) == x by {
        assert(vis.contains(k));
    }
}

/// Popping a new key whose function is `gf`: the key is visited, its slice
/// `w` is added, and the keys its calls lead to have been pushed.
proof fn lemma_cross_pop_func(
    t: SyntaxTree, file: Seq<char>, start: (Seq<char>, int), cands: Set<(Seq<char>, int)>,
    vis: Seq<(Seq<char>, int)>, st1: Seq<(Seq<char>, int)>, st2: Seq<(Seq<char>, int)>,
    key: (Seq<char>, int), gf: int,
    all: Seq<SliceEntry>, owners: Seq<int>, w: Seq<SliceEntry>,
)
    requires
        cross_inv(t, file, start, cands, vis, st1.push(key), all, owners),
        function_named_in(functions_of(t), key.0) == Some(gf),
        entries_ok(t, stmts_below(t, gf), file, w),
        entry_lines(w).to_set() == slice_lines(t, gf, key.1),
        forall|k: (Seq<char>, int)| #[trigger] st1.contains(k) ==> st2.contains(k),
        forall|k: (Seq<char>, int)| #[trigger] st2.contains(k) ==> st1.contains(k)
            || key_reaches(t, start, k) && cands.contains(k),
        forall|b: (Seq<char>, int)| #[trigger] key_step(t, key, b) ==> st2.contains(b),
    ensures
        cross_inv(t, file, start, cands, vis.push(key), st2, all + w,
            owners + Seq::new(w.len(), |m: int| vis.len() as int)),
{
    reveal(cross_inv);
    let st0 = st1.push(key);
    let vis1 = vis.push(key);
    let all1 = all + w;
    let owners1 = owners + Seq::new(w.len(), |m: int| vis.len() as int);
    assert(st0[st1.len() as int] == key);
    assert(vis1[vis.len() as int] == key);
    assert forall|k: (Seq<char>, int)| #[trigger] st0.contains(k) implies st1.contains(k) || k == key by {
        let i = choose|i: int| 0 <= i < st0.len() && st0[i] == k;
        if i < st1.len() {
            assert(st1[i] == k);
        }
    }
    assert forall|k: (Seq<char>, int)| #[trigger] vis1.contains(k) implies vis.contains(k) || k == key by {
        let i = choose|i: int| 0 <= i < vis1.len() && vis1[i] == k;
        if i < vis.len() {
            assert(vis[i] == k);
        }
    }
    assert forall|k: (Seq<char>, int)| #[trigger] vis.contains(k) implies vis1.contains(k) by {
        let i = choose|i: int| 0 <= i < vis.len() && vis[i] == k;
        assert(vis1[i] == k);
    }
    assert forall|k: (Seq<char>, int)| #[trigger] vis1.contains(k) implies cands.contains(k) && key_reaches(t, start, k) by {
        if k == key {
            assert(st0.contains(key));
        }
    }
    assert forall|k: (Seq<char>, int)| #[trigger] st2.contains(k) implies cands.contains(k) && key_reaches(t, start, k) by {
        if st1.contains(k) {
            assert(st0.contains(k)) by {
                let i = choose|i: int| 0 <= i < st1.len() && st1[i] == k;
                assert(st0[i] == k);
            }
        }
    }
    assert(vis1.contains(start) || st2.contains(start)) by {
        if st0.contains(start) && start != key {
            assert(st1.contains(start));
        }
    }
    assert forall|a: (Seq<char>, int), b: (Seq<char>, int)| vis1.contains(a) && #[trigger] key_step(t, a, b)
        implies vis1.contains(b) || st2.contains(b) by {
        if a != key {
            assert(vis.contains(a));
            assert(vis.contains(b) || st0.contains(b));
            if st0.contains(b) && b != key {
                assert(st1.contains(b));
            }
        }
    }
    assert forall|m: int| 0 <= m < w.len() implies #[trigger] local_entry(t, file, key, entry_view(w[m])) by {
        assert(entry_lines(w)[m] == w[m].line as int);
        assert(entry_lines(w).to_set().contains(w[m].line as int));
    }
    assert forall|i: int| #![trigger owners1[i]] 0 <= i && i < all1.len() implies
        0 <= owners1[i] && owners1[i] < vis1.len() && local_entry(t, file, vis1[owners1[i]], entry_view(all1[i])) by {
        if i < all.len() {
            assert(all1[i] == all[i]);
            assert(owners1[i] == owners[i]);
            assert(vis1[owners[i]] == vis[owners[i]]);
        } else {
            assert(all1[i] == w[i - all.len()]);
            assert(owners1[i] == vis.len());
            assert(local_entry(t, file, key, entry_view(w[i - all.len()])));
        }
    }
    assert forall|k: (Seq<char>, int), x: (Seq<char>, int, Seq<char>)|
        #![trigger vis1.contains(k), local_entry(t, file, k, x)]
        vis1.contains(k) && local_entry(t, file, k, x)
        implies exists|i: int| 0 <= i < all1.len() && #[trigger] entry_view(all1[i]) == x by {
        if k != key {
            assert(vis.contains(k));
            let q = choose|q: int| 0 <= q < all.len() && #[trigger] entry_view(all[q]) == x;
            assert(all1[q] == all[q]);
        } else {
            assert(entry_lines(w).to_set().contains(x.1));
            let m = choose|m: int| 0 <= m < entry_lines(w).len() && entry_lines(w)[m] == x.1;
            assert(all1[all.len() + m] == w[m]);
            assert(entry_view(all1[all.len() + m]) == x);
        }
    }
}

/// At the end of the search every key reached from the start has been
/// visited, so the entries found are exactly those of the reached keys'
/// slices.
proof fn lemma_cross_done(
    t: SyntaxTree, file: Seq<char>, start: (Seq<char>, int), cands: Set<(Seq<char>, int)>,
    vis: Seq<(Seq<char>, int)>, all: Seq<SliceEntry>, owners: Seq<int>,
)
    requires
        cross_inv(t, file, start, cands, vis, Seq::empty(), all, owners),
    ensures
        cross_slice_ok(t, file, start, all),
        forall|k: (Seq<char>, int)| #[trigger] vis.contains(k) <==> key_reaches(t, start, k),
{
    reveal(cross_inv);
    let vs = vis.to_set();
    assert forall|a: (Seq<char>, int), b: (Seq<char>, int)| vs.contains(a) && #[trigger] key_step(t, a, b)
        implies vs.contains(b) by {
        assert(vis.contains(a));
        assert(vis.contains(b) || Seq::<(Seq<char>, int)>::empty().contains(b));
    }
    assert forall|k: (Seq<char>, int)| #[trigger] key_reaches(t, start, k) implies vis.contains(k) by {
        let p = choose|p: Seq<(Seq<char>, int)>| #[trigger] key_path(t, p) && p[0] == start && p.last() == k;
        assert(vs.contains(p[0]));
        lemma_key_closed_path(t, vs, p, p.len() - 1);
    }
    assert forall|i: int| 0 <= i && i < all.len() implies #[trigger] reached_entry(t, file, start, entry_view(all[i])) by {
        let k = vis[owners[i]];
        assert(vis.contains(k));
        assert(key_reaches(t, start, k));
        assert(local_entry(t, file, k, entry_view(all[i])));
    }
    assert forall|k: (Seq<char>, int), x: (Seq<char>, int, Seq<char>)|
        #![trigger key_reaches(t, start, k), local_entry(t, file, k, x)]
        key_reaches(t, start, k) && local_entry(t, file, k, x)
        implies found_in(all, x) by {
        assert(vis.contains(k));
    }
}

/// Sorting keeps the entries: a slice across functions stays one.
proof fn lemma_cross_sorted(t: SyntaxTree, file: Seq<char>, start: (Seq<char>, int), a: Seq<SliceEntry>, v: Seq<SliceEntry>)
    requires
        cross_slice_ok(t, file, start, a),
        v.to_multiset() == a.to_multiset(),
    ensures
        cross_slice_ok(t, file, start, v),
{
    v.to_multiset_ensures();
    a.to_multiset_ensures();
    assert forall|i: int| 0 <= i && i < v.len() implies #[trigger] reached_entry(t, file, start, entry_view(v[i])) by {
        assert(v.contains(v[i]));
        assert(v.to_multiset().count(v[i]) > 0);
        assert(a.to_multiset().count(v[i]) > 0);
        assert(a.contains(v[i]));
        let q = choose|q: int| 0 <= q < a.len() && a[q] == v[i];
        assert(a[q] == v[i]);
        assert(reached_entry(t, file, start, entry_view(a[q])));
    }
    assert forall|k: (Seq<char>, int), x: (Seq<char>, int, Seq<char>)|
        #![trigger key_reaches(t, start, k), local_entry(t, file, k, x)]
        key_reaches(t, start, k) && local_entry(t, file, k, x)
        implies found_in(v, x) by {
        assert(found_in(a, x));
        let q = choose|q: int| 0 <= q && q < a.len() && #[trigger] entry_view(a[q]) == x;
        assert(a.contains(a[q]));
        assert(a.to_multiset().count(a[q]) > 0);
        assert(v.to_multiset().count(a[q]) > 0);
        assert(v.contains(a[q]));
        let i = choose|i: int| 0 <= i < v.len() && v[i] == a[q];
        assert(entry_view(v[i]) == x);
    }
}

/// The slice of line `start_line` across functions in `t`, the tree of
/// `file`: the backward slice inside the function that spans the line,
/// and, for each statement met that calls a function defined in the file,
/// the slice of the called function from the line at which it returns, and
/// so on for every function and line reached, each once; all of them ordered by
/// line. Outside a named function it is the plain backward slice.
pub fn cross_function_slice_in(t: &SyntaxTree, file: &str, start_line: usize) -> (r: Vec<SliceEntry>)
    requires
        t.wf(),
    ensures
        match containing_function_name(*t, start_line as int) {
            None => entry_views(r@) == backward_slice_spec(*t, file@, start_line as int),
            Some(g) => sorted_by_line(r@) && cross_slice_ok(*t, file@, (g, start_line as int), r@)
                && cross_counts(*t, file@, (g, start_line as int), r@),
        },
{
    let fs = collect_functions(t);
    let start_name = match find_containing_function_name(t, start_line) {
        Some(n) => n,
        None => {
            return backward_slice_in(t, file, start_line);
        },
    };
    let ghost start = (start_name@, start_line as int);
    let ghost fsv = fs@.map_values(|e: (String, usize, usize)| (e.0@, e.1 as int, e.2 as int));
    let ghost textf = |j: int| t.text(j);
    let ghost names = collect_some(textf, 0, t.len()).push(start_name@);
    let ghost lineseq = Seq::new(t.len() as nat, |j: int| t.line(j)).push(start_line as int);
    let ghost lines = lineseq.to_set();
    let ghost cands = Set::new(|p: (Seq<char>, int)| names.contains(p.0) && lines.contains(p.1));
    proof {
        vstd::seq_lib::seq_to_set_is_finite(lineseq);
        lemma_pairs_finite(names, lines);
        assert(names[names.len() - 1] == start_name@);
        assert(lineseq[t.len()] == start_line as int);
        assert(cands.contains(start));
    }
    let mut all: Vec<SliceEntry> = Vec::new();
    let ghost mut owners: Seq<int> = Seq::empty();
    let mut visited: Vec<(String, usize)> = Vec::new();
    let mut stack: Vec<(String, usize)> = Vec::new();
    stack.push((start_name, start_line));
    proof {
        reveal(cross_inv);
        assert(key_views(stack@) =~= seq![start]);
        assert(key_views(stack@)[0] == start);
        assert(key_path(*t, seq![start]));
        assert(seq![start][0] == start);
        assert(key_views(visited@) =~= Seq::<(Seq<char>, int)>::empty());
        assert(key_views(visited@).to_set() =~= Set::<(Seq<char>, int)>::empty());
        assert forall|k: (Seq<char>, int)| #[trigger] key_views(stack@).contains(k) implies
            cands.contains(k) && key_reaches(*t, start, k) by {
            assert(k == start);
        }
    }
    while stack.len() > 0
        invariant
            t.wf(),
            fsv == fs@.map_values(|e: (String, usize, usize)| (e.0@, e.1 as int, e.2 as int)),
            fsv == functions_of(*t),
            forall|k: int| 0 <= k < fs@.len() ==> (#[trigger] fs@[k]).2 < t.len(),
            textf == (|j: int| t.text(j)),
            names == collect_some(textf, 0, t.len()).push(start.0),
            lines == Seq::new(t.len() as nat, |j: int| t.line(j)).push(start.1).to_set(),
            cands == Set::new(|p: (Seq<char>, int)| names.contains(p.0) && lines.contains(p.1)),
            cands.finite(),
            cross_inv(*t, file@, start, cands, key_views(visited@), key_views(stack@), all@, owners),
            key_views(visited@).no_duplicates(),
            forall|x: (Seq<char>, int, Seq<char>)| #[trigger] view_count(all@, x) == key_count(*t, file@, key_views(visited@), x),
        decreases cands.difference(key_views(visited@).to_set()).len(), stack@.len(),
    {
        let ghost vis0 = key_views(visited@);
        let ghost all0 = all@;
        let ghost owners0 = owners;
        let ghost sraw0 = stack@;
        let (g, l) = stack.pop().unwrap();
        let ghost key = (g@, l as int);
        let ghost st1 = key_views(stack@);
        proof {
            assert(sraw0 == stack@.push((g, l)));
            lemma_keys_push(stack@, (g, l));
            lemma_cross_popped(*t, file@, start, cands, vis0, st1, key, all0, owners0);
        }
        if key_listed(&visited, g.as_str(), l) {
            proof {
                lemma_cross_pop_seen(*t, file@, start, cands, vis0, st1, key, all0, owners0);
            }
        } else {
            let entry_key = (g.clone(), l);
            let ghost vraw0 = visited@;
            visited.push(entry_key);
            proof {
                lemma_keys_push(vraw0, entry_key);
                let vis1 = key_views(visited@);
                assert(vis1 =~= vis0.push(key));
                assert(vis1.to_set() =~= vis0.to_set().insert(key)) by {
                    vis0.lemma_push_to_set_commute(key);
                }
                assert(cands.difference(vis1.to_set()) =~= cands.difference(vis0.to_set()).remove(key));
                vstd::set::axiom_set_difference_finite(cands, vis0.to_set());
                vstd::set::axiom_set_remove_len(cands.difference(vis0.to_set()), key);
                assert(!vis0.contains(key));
                assert forall|a: int, b: int| 0 <= a < vis1.len() && 0 <= b < vis1.len() && a != b
                    implies vis1[a] != vis1[b] by {
                    if a < vis0.len() && b < vis0.len() {
                        assert(vis1[a] == vis0[a] && vis1[b] == vis0[b]);
                    } else if a < vis0.len() {
                        assert(vis1[a] == vis0[a]);
                    } else {
                        assert(vis1[b] == vis0[b]);
                    }
                }
                assert(vis1.drop_last() =~= vis0);
            }
            match find_function_named(&fs, g.as_str()) {
                None => {
                    proof {
                        lemma_cross_pop_nofunc(*t, file@, start, cands, vis0, st1, key, all0, owners0);
                        let vis1 = key_views(visited@);
                        assert forall|x: (Seq<char>, int, Seq<char>)| #[trigger] view_count(all@, x)
                            == key_count(*t, file@, vis1, x) by {
                            assert(vis1.drop_last() =~= vis0);
                            assert(!local_entry(*t, file@, key, x));
                        }
                    }
                },
                Some(gf) => {
                    let stmts = flatten_stmts(t, gf);
                    let walk = slice_walk(t, gf, file, l);
                    let ghost ss = ints(stmts@);
                    let ghost st2 = key_views(stack@);
                    let mut i: usize = 0;
                    while i < walk.len()
                        invariant
                            t.wf(),
                            gf < t.len(),
                            function_named_in(functions_of(*t), key.0) == Some(gf as int),
                            ss == ints(stmts@),
                            ss == stmts_below(*t, gf as int),
                            forall|m: int| 0 <= m < stmts@.len() ==> #[trigger] stmts@[m] < t.len(),
                            entries_ok(*t, ss, file@, walk@),
                            entry_lines(walk@).to_set() == slice_lines(*t, gf as int, l as int),
                            fsv == fs@.map_values(|e: (String, usize, usize)| (e.0@, e.1 as int, e.2 as int)),
                            fsv == functions_of(*t),
                            forall|k: int| 0 <= k < fs@.len() ==> (#[trigger] fs@[k]).2 < t.len(),
                            key_reaches(*t, start, key),
                            key.1 == l as int,
                            textf == (|j: int| t.text(j)),
                            names == collect_some(textf, 0, t.len()).push(start.0),
                            lines == Seq::new(t.len() as nat, |j: int| t.line(j)).push(start.1).to_set(),
                            cands == Set::new(|p: (Seq<char>, int)| names.contains(p.0) && lines.contains(p.1)),
                            i <= walk@.len(),
                            forall|k: (Seq<char>, int)| #[trigger] st1.contains(k) ==> key_views(stack@).contains(k),
                            forall|k: (Seq<char>, int)| #[trigger] key_views(stack@).contains(k) ==> st1.contains(k)
                                || key_reaches(*t, start, k) && cands.contains(k),
                            forall|m: int| #![trigger walk@[m]] 0 <= m < i
                                && callee_in(*t, stmt_at(*t, ss, walk@[m].line as int).unwrap()) is Some
                                && callee_return(*t, callee_in(*t, stmt_at(*t, ss, walk@[m].line as int).unwrap()).unwrap()) is Some
                                ==> key_views(stack@).contains((callee_in(*t, stmt_at(*t, ss, walk@[m].line as int).unwrap()).unwrap(),
                                    callee_return(*t, callee_in(*t, stmt_at(*t, ss, walk@[m].line as int).unwrap()).unwrap()).unwrap())),
                        decreases walk@.len() - i,
                    {
                        let ghost sk = key_views(stack@);
                        let wl = walk[i].line;
                        assert(stmt_at(*t, ss, walk@[i as int].line as int) is Some);
                        let s = find_stmt_at(t, &stmts, wl).unwrap();
                        let ghost cal = callee_in(*t, stmt_at(*t, ss, walk@[i as int].line as int).unwrap());
                        let callee = find_callee_in_stmt(t, s);
                        let ret = match &callee {
                            Some(c) => match find_function_named(&fs, c.as_str()) {
                                Some(cf) => find_return_line(t, cf),
                                None => None,
                            },
                            None => None,
                        };
                        proof {
                            assert(stmt_at(*t, ss, wl as int) == Some(s as int));
                            if cal is Some {
                                assert(opt_int(ret) == callee_return(*t, cal.unwrap()));
                            }
                        }
                        match callee {
                            Some(c) => match ret {
                                Some(rl) => {
                                    let ghost nk = (c@, rl as int);
                                    let pushed = (c, rl);
                                    let ghost sraw = stack@;
                                    stack.push(pushed);
                                    proof {
                                        lemma_keys_push(sraw, pushed);
                                        assert(key_views(stack@) =~= sk.push(nk));
                                        assert(key_views(stack@)[sk.len() as int] == nk);
                                        assert(entry_lines(walk@)[i as int] == wl as int);
                                        assert(entry_lines(walk@).to_set().contains(wl as int));
                                        assert(stmt_at(*t, ss, wl as int) == Some(s as int));
                                        assert(slice_lines(*t, gf as int, key.1).contains(wl as int));
                                        assert(key_step(*t, key, nk));
                                        let p = choose|p: Seq<(Seq<char>, int)>| #[trigger] key_path(*t, p) && p[0] == start && p.last() == key;
                                        lemma_key_path_push(*t, p, nk);
                                        let j = choose|j: int| 0 <= j < t.len() && t.text(j) == Some(c@);
                                        lemma_collect_some_contains(textf, 0, t.len(), c@);
                                        assert(textf(j) == Some(c@));
                                        let cs = collect_some(textf, 0, t.len());
                                        assert(cs.contains(c@));
                                        let ci = choose|ci: int| 0 <= ci < cs.len() && cs[ci] == c@;
                                        assert(names[ci] == c@);
                                        let jl = choose|jl: int| 0 <= jl < t.len() && t.line(jl) == rl as int;
                                        assert(Seq::new(t.len() as nat, |j: int| t.line(j)).push(start.1)[jl] == rl as int);
                                        assert(cands.contains(nk));
                                        assert forall|k: (Seq<char>, int)| #[trigger] key_views(stack@).contains(k) implies st1.contains(k)
                                            || key_reaches(*t, start, k) && cands.contains(k) by {
                                            if k != nk {
                                                let q = choose|q: int| 0 <= q < key_views(stack@).len() && key_views(stack@)[q] == k;
                                                assert(sk[q] == k);
                                                assert(sk.contains(k));
                                            }
                                        }
                                        assert forall|k: (Seq<char>, int)| #[trigger] st1.contains(k) implies key_views(stack@).contains(k) by {
                                            assert(sk.contains(k));
                                            let q = choose|q: int| 0 <= q < sk.len() && sk[q] == k;
                                            assert(key_views(stack@)[q] == k);
                                        }
                                        assert forall|m: int| #![trigger walk@[m]] 0 <= m < i + 1
                                            && callee_in(*t, stmt_at(*t, ss, walk@[m].line as int).unwrap()) is Some
                                            && callee_return(*t, callee_in(*t, stmt_at(*t, ss, walk@[m].line as int).unwrap()).unwrap()) is Some
                                            implies key_views(stack@).contains((callee_in(*t, stmt_at(*t, ss, walk@[m].line as int).unwrap()).unwrap(),
                                                callee_return(*t, callee_in(*t, stmt_at(*t, ss, walk@[m].line as int).unwrap()).unwrap()).unwrap())) by {
                                            let kk = (callee_in(*t, stmt_at(*t, ss, walk@[m].line as int).unwrap()).unwrap(),
                                                callee_return(*t, callee_in(*t, stmt_at(*t, ss, walk@[m].line as int).unwrap()).unwrap()).unwrap());
                                            if m < i {
                                                assert(sk.contains(kk));
                                                let q = choose|q: int| 0 <= q < sk.len() && sk[q] == kk;
                                                assert(key_views(stack@)[q] == kk);
                                            } else {
                                                assert(kk == nk);
                                            }
                                        }
                                    }
                                },
                                None => {},
                            },
                            None => {},
                        }
                        i = i + 1;
                    }
                    let ghost w = walk@;
                    proof {
                        assert forall|b: (Seq<char>, int)| #[trigger] key_step(*t, key, b)
                            implies key_views(stack@).contains(b) by {
                            let l2 = choose|l2: int| #![trigger slice_lines(*t, gf as int, key.1).contains(l2)]
                                slice_lines(*t, gf as int, key.1).contains(l2)
                                && callee_in(*t, stmt_at(*t, stmts_below(*t, gf as int), l2).unwrap()) == Some(b.0)
                                && callee_return(*t, b.0) == Some(b.1);
                            assert(entry_lines(w).to_set().contains(l2));
                            let m = choose|m: int| 0 <= m < entry_lines(w).len() && entry_lines(w)[m] == l2;
                            assert(w[m].line as int == l2);
                        }
                        lemma_cross_pop_func(*t, file@, start, cands, vis0, st1, key_views(stack@), key, gf as int,
                            all0, owners0, w);
                    }
                    let mut walk = walk;
                    all.append(&mut walk);
                    proof {
                        owners = owners0 + Seq::new(w.len(), |m: int| vis0.len() as int);
                        assert(all@ == all0 + w);
                        let vis1 = key_views(visited@);
                        assert forall|x: (Seq<char>, int, Seq<char>)| #[trigger] view_count(all@, x)
                            == key_count(*t, file@, vis1, x) by {
                            assert(vis1.drop_last() =~= vis0);
                            lemma_view_count_concat(all0, w, x);
                            lemma_walk_count(*t, file@, key, gf as int, w, x);
                        }
                    }
                },
            }
        }
    }
    let r = sort_entries_by_line(&all);
    proof {
        assert(key_views(stack@) =~= Seq::<(Seq<char>, int)>::empty());
        lemma_cross_done(*t, file@, start, cands, key_views(visited@), all@, owners);
        lemma_cross_sorted(*t, file@, start, all@, r@);
        let vis = key_views(visited@);
        assert(enumerates_reached(*t, start, vis));
        assert forall|x: (Seq<char>, int, Seq<char>)| #[trigger] view_count(r@, x) == key_count(*t, file@, vis, x) by {
            lemma_view_count_sorted(all@, x);
        }
    }
    r
}

/// The slice of line `start_line` of a parsed file across functions. When
/// the tree cannot be read into its plain form the slice is empty.
pub fn cross_function_slice(source: &str, tree: &tree_sitter::Tree, file: &str, start_line: usize) -> (r: Vec<SliceEntry>)
    ensures
        exists|t: SyntaxTree| #![trigger containing_function_name(t, start_line as int)]
            models(t, *tree, source@) && match containing_function_name(t, start_line as int) {
                None => entry_views(r@) == backward_slice_spec(t, file@, start_line as int),
                Some(g) => sorted_by_line(r@) && cross_slice_ok(t, file@, (g, start_line as int), r@)
                    && cross_counts(t, file@, (g, start_line as int), r@),
            },
{
    match syntax_tree_from(tree, source) {
        Some(t) => cross_function_slice_in(&t, file, start_line),
        None => Vec::new(),
    }
}

} // verus!
