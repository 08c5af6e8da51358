//! Tracing a variable back to where its value comes from: from its
//! declaration to the variables its initializer uses, and so on.
use vstd::prelude::*;
use crate::syntax::{SyntaxTree, collect_some, opt_view, opt_int};
use crate::text::{
    chars_of, first_occurrence, find_from, trim, trim_str, string_of, sub_chars, string_views,
    lemma_views_push, push_char, str_equal, contains_str, lemma_first_occurrence,
};
use crate::lang::backend::{syntax_tree_from, models};
use super::FlowEntry;
use super::slice::{let_name, let_name_of, assoc_get, decl_views, lookup_decl, lemma_assoc_value, lemma_assoc_push};

verus! {

broadcast use vstd::string::group_string_axioms;

/// Whether `c` is alphabetic or numeric in Unicode (`char::is_alphanumeric`).
pub uninterp spec fn is_alnum(c: char) -> bool;

/// The upper-case form of a text (`str::to_uppercase`).
pub uninterp spec fn uppercase(s: Seq<char>) -> Seq<char>;

/// `char::is_alphanumeric`: whether the character has Unicode's
/// `Alphabetic` or `Numeric` property. The result is named, not spelled out.
#[verifier::external_body]
fn is_alphanumeric(c: char) -> (r: bool)
    ensures
        r == is_alnum(c),
{
    c.is_alphanumeric()
}

/// `str::to_uppercase`: the text under Unicode's upper-case mapping. The
/// result is named, not spelled out.
#[verifier::external_body]
fn to_uppercase(s: &str) -> (r: String)
    ensures
        r@ == uppercase(s@),
{
    s.to_uppercase()
}

/// The `let` declarations of the tree, in pre-order, as name and line.
pub open spec fn decl_at(t: SyntaxTree) -> spec_fn(int) -> Option<(Seq<char>, int)> {
    |k: int| if t.named(k) && t.kind(k) == "let_declaration"@ && let_name(t, k) is Some {
        Some((let_name(t, k).unwrap(), t.line(k)))
    } else {
        None
    }
}

/// All the declarations of the tree; a later one of a name takes the place
/// of the earlier ones.
pub open spec fn all_decls(t: SyntaxTree) -> Seq<(Seq<char>, int)> {
    collect_some(decl_at(t), 0, t.len())
}

/// The declarations of the whole tree, in pre-order.
pub fn collect_all_decls(t: &SyntaxTree) -> (r: Vec<(String, usize)>)
    requires
        t.wf(),
    ensures
        decl_views(r@) == all_decls(*t),
{
    let ghost f = decl_at(*t);
    let mut r: Vec<(String, usize)> = Vec::new();
    let mut k: usize = 0;
    while k < t.nodes.len()
        invariant
            t.wf(),
            k <= t.len(),
            f == decl_at(*t),
            decl_views(r@) == collect_some(f, 0, k as int),
        decreases t.len() - k,
    {
        assert(t.node_ok(k as int));
        if t.nodes[k].named && t.kind_is(k, "let_declaration") {
            match let_name_of(t, k) {
                Some(name) => {
                    r.push((name, t.nodes[k].start_row + 1));
                },
                None => {},
            }
        }
        assert(decl_views(r@) =~= collect_some(f, 0, k + 1));
        k = k + 1;
    }
    r
}

/// Kinds whose text is taken as the statement on a line.
pub open spec fn is_stmt_or_cont_kind(k: Seq<char>) -> bool {
    ||| k == "let_declaration"@ || k == "expression_statement"@ || k == "return_statement"@
    ||| k == "block"@ || k == "for_expression"@ || k == "if_expression"@
}

/// Whether `k` names such a kind.
pub fn is_stmt_or_cont(k: &str) -> (r: bool)
    ensures
        r == is_stmt_or_cont_kind(k@),
{
    str_equal(k, "let_declaration") || str_equal(k, "expression_statement") || str_equal(k, "return_statement")
        || str_equal(k, "block") || str_equal(k, "for_expression") || str_equal(k, "if_expression")
}

/// Every ancestor of node `k` is named.
pub open spec fn ancestors_named(t: SyntaxTree, k: int) -> bool
    decreases k,
{
    match t.node(k).parent {
        Some(p) => 0 <= p < k && t.named(p as int) && ancestors_named(t, p as int),
        None => true,
    }
}

/// Whether every ancestor of node `k` is named.
fn all_ancestors_named(t: &SyntaxTree, k: usize) -> (r: bool)
    requires
        t.wf(),
        k < t.len(),
    ensures
        r == ancestors_named(*t, k as int),
{
    let mut x = k;
    loop
        invariant
            t.wf(),
            x <= k < t.len(),
            ancestors_named(*t, k as int) == ancestors_named(*t, x as int),
        decreases x,
    {
        assert(t.node_ok(x as int));
        match t.nodes[x].parent {
            Some(p) => {
                if !t.nodes[p].named {
                    return false;
                }
                x = p;
            },
            None => {
                return true;
            },
        }
    }
}

/// The statement on line `line`, from node `k` on: the first node in
/// pre-order, below named nodes only, that is named, of a statement or
/// container kind and starts on the line; its text, when known.
pub open spec fn stmt_text_from(t: SyntaxTree, line: int, k: int) -> Option<Seq<char>>
    decreases t.len() - k,
{
    if k < 0 || k >= t.len() {
        None
    } else if ancestors_named(t, k) && t.named(k) && is_stmt_or_cont_kind(t.kind(k)) && t.line(k) == line {
        t.text(k)
    } else {
        stmt_text_from(t, line, k + 1)
    }
}

pub open spec fn stmt_text_at(t: SyntaxTree, line: int) -> Option<Seq<char>> {
    stmt_text_from(t, line, 0)
}

/// The text of the statement on line `line`.
pub fn extract_stmt_at_line(t: &SyntaxTree, line: usize) -> (r: Option<String>)
    requires
        t.wf(),
    ensures
        opt_view(r) == stmt_text_at(*t, line as int),
{
    let mut k: usize = 0;
    while k < t.nodes.len()
        invariant
            t.wf(),
            k <= t.len(),
            stmt_text_at(*t, line as int) == stmt_text_from(*t, line as int, k as int),
        decreases t.len() - k,
    {
        assert(t.node_ok(k as int));
        let n = &t.nodes[k];
        if n.named && is_stmt_or_cont(n.kind.as_str()) && n.start_row + 1 == line && all_ancestors_named(t, k) {
            return t.text_of(k);
        }
        k = k + 1;
    }
    None
}

/// `s` without the characters `c` at its end.
pub open spec fn trim_end_char(s: Seq<char>, c: char) -> Seq<char>
    decreases s.len(),
{
    if s.len() > 0 && s.last() == c {
        trim_end_char(s.drop_last(), c)
    } else {
        s
    }
}

/// The right-hand side of a statement: what follows its first `=`,
/// without trailing `;` and surrounding white space; the whole statement
/// when it has no `=`.
pub open spec fn rhs_of(stmt: Seq<char>) -> Seq<char> {
    match first_occurrence(stmt, "="@, 0) {
        Some(e) => trim(trim_end_char(stmt.skip(e + 1), ';')),
        None => stmt,
    }
}

/// The right-hand side of a statement.
pub fn extract_rhs(stmt: &str) -> (r: String)
    ensures
        r@ == rhs_of(stmt@),
{
    let v = chars_of(stmt);
    let eq = chars_of("=");
    match find_from(v.as_slice(), eq.as_slice(), 0) {
        Some(e) => {
            proof {
                lemma_first_occurrence(stmt@, "="@, 0);
                reveal_strlit("=");
            }
            let mut n = v.len();
            let ghost tail = stmt@.skip(e + 1);
            assert(stmt@.subrange(e + 1, n as int) =~= tail);
            while n > e + 1 && v[n - 1] == ';'
                invariant
                    v@ == stmt@,
                    e + 1 <= n <= v@.len(),
                    tail == stmt@.skip(e + 1),
                    trim_end_char(tail, ';') == trim_end_char(stmt@.subrange(e + 1, n as int), ';'),
                decreases n,
            {
                assert(stmt@.subrange(e + 1, n as int).drop_last() =~= stmt@.subrange(e + 1, n - 1));
                n = n - 1;
            }
            let rest = string_of(sub_chars(v.as_slice(), e + 1, n).as_slice());
            trim_str(rest.as_str())
        },
        None => stmt.to_string(),
    }
}

/// A character that belongs to a word.
pub open spec fn is_word_char(c: char) -> bool {
    is_alnum(c) || c == '_'
}

/// The pieces of `s` between characters that do not belong to words.
pub open spec fn word_pieces(s: Seq<char>) -> Seq<Seq<char>>
    decreases s.len(),
{
    if s.len() == 0 {
        seq![Seq::empty()]
    } else {
        let prev = word_pieces(s.drop_last());
        if !is_word_char(s.last()) {
            prev.push(Seq::empty())
        } else {
            prev.update(prev.len() - 1, prev.last().push(s.last()))
        }
    }
}

proof fn lemma_word_pieces_nonempty(s: Seq<char>)
    ensures
        word_pieces(s).len() >= 1,
    decreases s.len(),
{
    if s.len() > 0 {
        lemma_word_pieces_nonempty(s.drop_last());
    }
}

/// A word that names a variable: non-empty, made of word characters, and
/// not all in upper case (which names a constant).
pub open spec fn is_variable_word(w: Seq<char>) -> bool {
    &&& w.len() > 0
    &&& forall|i: int| 0 <= i < w.len() ==> is_word_char(#[trigger] w[i])
    &&& w != uppercase(w)
}

/// The variables that an expression uses.
pub open spec fn upstream_vars(rhs: Seq<char>) -> Seq<Seq<char>> {
    word_pieces(rhs).filter(|w: Seq<char>| is_variable_word(w))
}

/// The variables that the expression `rhs` uses, in order.
pub fn extract_upstream_vars(rhs: &str) -> (r: Vec<String>)
    ensures
        string_views(r@) == upstream_vars(rhs@),
{
    let v = chars_of(rhs);
    let mut pieces: Vec<String> = Vec::new();
    let mut cur = String::new();
    let mut k: usize = 0;
    assert(rhs@.take(0) =~= Seq::<char>::empty());
    while k < v.len()
        invariant
            v@ == rhs@,
            k <= v@.len(),
            string_views(pieces@).push(cur@) == word_pieces(rhs@.take(k as int)),
        decreases v@.len() - k,
    {
        assert(rhs@.take(k + 1).drop_last() =~= rhs@.take(k as int));
        assert(rhs@.take(k + 1).last() == v@[k as int]);
        let c = v[k];
        if !(is_alphanumeric(c) || c == '_') {
            let ghost before = pieces@;
            pieces.push(cur);
            cur = String::new();
            proof {
                lemma_views_push(before, pieces@.last());
            }
            assert(string_views(pieces@).push(cur@) =~= word_pieces(rhs@.take(k + 1)));
        } else {
            push_char(&mut cur, c);
            assert(string_views(pieces@).push(cur@) =~= word_pieces(rhs@.take(k + 1)));
        }
        k = k + 1;
    }
    let ghost before = pieces@;
    pieces.push(cur);
    proof {
        lemma_views_push(before, pieces@.last());
    }
    assert(rhs@.take(v@.len() as int) =~= rhs@);
    let ghost pv = string_views(pieces@);
    let ghost pred = |w: Seq<char>| is_variable_word(w);
    let mut r: Vec<String> = Vec::new();
    let mut i: usize = 0;
    assert(pv.take(0).filter(pred) =~= Seq::<Seq<char>>::empty()) by {
        reveal(Seq::filter);
    }
    while i < pieces.len()
        invariant
            pv == string_views(pieces@),
            pred == (|w: Seq<char>| is_variable_word(w)),
            i <= pieces@.len(),
            string_views(r@) == pv.take(i as int).filter(pred),
        decreases pieces@.len() - i,
    {
        let w = &pieces[i];
        proof {
            assert(pv.take(i + 1) =~= pv.take(i as int).push(w@));
            pv.take(i as int).lemma_filter_push(w@, pred);
        }
        let wc = chars_of(w.as_str());
        let mut all_word = true;
        let mut q: usize = 0;
        while q < wc.len()
            invariant
                wc@ == w@,
                q <= wc@.len(),
                all_word == forall|m: int| 0 <= m < q ==> is_word_char(#[trigger] w@[m]),
            decreases wc@.len() - q,
        {
            if !(is_alphanumeric(wc[q]) || wc[q] == '_') {
                all_word = false;
            }
            q = q + 1;
        }
        let upper = to_uppercase(w.as_str());
        let ghost before = r@;
        if !w.as_str().is_empty() && all_word && !str_equal(w.as_str(), upper.as_str()) {
            let y = w.clone();
            r.push(y);
            proof {
                lemma_views_push(before, y);
            }
        }
        i = i + 1;
    }
    assert(pv.take(pieces@.len() as int) =~= pv);
    r
}

/// The line that declares `n` last in pre-order.
pub open spec fn decl_line(t: SyntaxTree, n: Seq<char>) -> Option<int> {
    assoc_get(all_decls(t), n)
}

/// The right-hand side of the statement on line `l` (empty when no
/// statement is found there).
pub open spec fn rhs_at_line(t: SyntaxTree, l: int) -> Seq<char> {
    match stmt_text_at(t, l) {
        Some(x) => rhs_of(x),
        None => Seq::empty(),
    }
}

/// Variable `a` flows from variable `b`: `b` is used by the initializer
/// of `a`'s declaration.
pub open spec fn flow_step(t: SyntaxTree, a: Seq<char>, b: Seq<char>) -> bool {
    match decl_line(t, a) {
        Some(l) => upstream_vars(rhs_at_line(t, l)).contains(b),
        None => false,
    }
}

pub open spec fn flow_path(t: SyntaxTree, p: Seq<Seq<char>>) -> bool {
    &&& p.len() > 0
    &&& forall|i: int| 0 <= i < p.len() - 1 ==> flow_step(t, #[trigger] p[i], p[i + 1])
}

/// Variable `n` is reached from `var` by following where values come from.
pub open spec fn flow_reaches(t: SyntaxTree, var: Seq<char>, n: Seq<char>) -> bool {
    exists|p: Seq<Seq<char>>| #[trigger] flow_path(t, p) && p[0] == var && p.last() == n
}

/// The step of the trace for a declared variable `n`.
pub open spec fn flow_entry_of(t: SyntaxTree, n: Seq<char>) -> (Seq<char>, Seq<char>, int) {
    (n, rhs_at_line(t, decl_line(t, n).unwrap()), decl_line(t, n).unwrap())
}

/// The view of a trace step.
pub open spec fn flow_view(e: FlowEntry) -> (Seq<char>, Seq<char>, int) {
    (e.var@, e.from@, e.line as int)
}

/// The facts that hold of a trace from `var`: it starts with `var` when
/// `var` is declared, each step is the step of its variable, no variable
/// comes twice, and the variables are those reached from `var` that are
/// declared.
pub open spec fn trace_ok(t: SyntaxTree, var: Seq<char>, v: Seq<FlowEntry>) -> bool {
    &&& decl_line(t, var) is Some ==> v.len() > 0 && v[0].var@ == var
    &&& forall|i: int| 0 <= i < v.len() ==> decl_line(t, (#[trigger] v[i]).var@) is Some
        && flow_view(v[i]) == flow_entry_of(t, v[i].var@)
    &&& forall|i: int, j: int| 0 <= i < j < v.len() ==> (#[trigger] v[i]).var@ != (#[trigger] v[j]).var@
    &&& forall|n: Seq<char>| #[trigger] trace_vars(v).contains(n)
        <==> flow_reaches(t, var, n) && decl_line(t, n) is Some
}

/// The words of the initializers of all declarations.
pub open spec fn all_upstream(t: SyntaxTree, s: Seq<(Seq<char>, int)>) -> Seq<Seq<char>>
    decreases s.len(),
{
    if s.len() == 0 {
        Seq::empty()
    } else {
        all_upstream(t, s.drop_last()) + upstream_vars(rhs_at_line(t, s.last().1))
    }
}

proof fn lemma_all_upstream(t: SyntaxTree, s: Seq<(Seq<char>, int)>, i: int, w: Seq<char>)
    requires
        0 <= i < s.len(),
        upstream_vars(rhs_at_line(t, s[i].1)).contains(w),
    ensures
        all_upstream(t, s).contains(w),
    decreases s.len(),
{
    let prev = all_upstream(t, s.drop_last());
    let last = upstream_vars(rhs_at_line(t, s.last().1));
    assert(all_upstream(t, s) == prev + last);
    if i < s.len() - 1 {
        assert(s.drop_last()[i] == s[i]);
        lemma_all_upstream(t, s.drop_last(), i, w);
        let k = choose|k: int| 0 <= k < prev.len() && prev[k] == w;
        assert((prev + last)[k] == w);
    } else {
        let k = choose|k: int| 0 <= k < last.len() && last[k] == w;
        assert((prev + last)[prev.len() + k] == w);
    }
}

proof fn lemma_flow_path_push(t: SyntaxTree, p: Seq<Seq<char>>, w: Seq<char>)
    requires
        flow_path(t, p),
        flow_step(t, p.last(), w),
    ensures
        flow_path(t, p.push(w)),
        p.push(w)[0] == p[0],
        p.push(w).last() == w,
{
    let q = p.push(w);
    assert forall|i: int| 0 <= i < q.len() - 1 implies flow_step(t, #[trigger] q[i], q[i + 1]) by {
        if i < p.len() - 1 {
            assert(q[i] == p[i] && q[i + 1] == p[i + 1]);
        } else {
            assert(q[i] == p.last());
        }
    }
}

proof fn lemma_flow_closed(t: SyntaxTree, vs: Set<Seq<char>>, p: Seq<Seq<char>>, i: int)
    requires
        flow_path(t, p),
        vs.contains(p[0]),
        forall|a: Seq<char>, b: Seq<char>| vs.contains(a) && #[trigger] flow_step(t, a, b) ==> vs.contains(b),
        0 <= i < p.len(),
    ensures
        vs.contains(p[i]),
    decreases i,
{
    if i > 0 {
        lemma_flow_closed(t, vs, p, i - 1);
        assert(flow_step(t, p[i - 1], p[i]));
    }
}

/// The names on a stack of variables to follow.
pub open spec fn stack_names(v: Seq<(String, usize)>) -> Seq<Seq<char>> {
    v.map_values(|p: (String, usize)| p.0@)
}

/// The views of the variables of a trace.
pub open spec fn trace_vars(v: Seq<FlowEntry>) -> Seq<Seq<char>> {
    v.map_values(|e: FlowEntry| e.var@)
}

/// A trace starts from its variable: a declared variable is in its own
/// trace, and a trace takes in whatever a variable of it draws on.
pub proof fn lemma_trace_closed(t: SyntaxTree, var: Seq<char>, v: Seq<FlowEntry>, a: Seq<char>, b: Seq<char>)
    requires
        trace_ok(t, var, v),
    ensures
        decl_line(t, var) is Some ==> trace_vars(v).contains(var),
        trace_vars(v).contains(a) && flow_step(t, a, b) && decl_line(t, b) is Some
            ==> trace_vars(v).contains(b),
{
    let p = seq![var];
    assert(flow_path(t, p));
    assert(flow_reaches(t, var, var));
    if trace_vars(v).contains(a) && flow_step(t, a, b) && decl_line(t, b) is Some {
        assert(flow_reaches(t, var, a));
        let q = choose|q: Seq<Seq<char>>| #[trigger] flow_path(t, q) && q[0] == var && q.last() == a;
        let r = q.push(b);
        assert forall|i: int| 0 <= i < r.len() - 1 implies flow_step(t, #[trigger] r[i], r[i + 1]) by {
            if i < q.len() - 1 {
                assert(r[i] == q[i] && r[i + 1] == q[i + 1]);
            } else {
                assert(r[i] == a && r[i + 1] == b);
            }
        }
        assert(flow_path(t, r));
        assert(r[0] == var && r.last() == b);
        assert(flow_reaches(t, var, b));
    }
}

/// The names a trace from `var` can meet: `var` and every name that the
/// initializer of a declaration uses.
pub open spec fn trace_names(t: SyntaxTree, var: Seq<char>) -> Set<Seq<char>> {
    all_upstream(t, all_decls(t)).push(var).to_set()
}

/// The depth-first trace from a stack of names: the last name is taken
/// off; a name already visited (or one the trace cannot meet) is passed
/// over; an undeclared name is marked visited; a declared one gives its
/// step, is marked visited, and the names its initializer uses go on the
/// stack in order.
pub open spec fn dfs_trace(
    t: SyntaxTree,
    names: Set<Seq<char>>,
    stack: Seq<Seq<char>>,
    visited: Set<Seq<char>>,
) -> Seq<(Seq<char>, Seq<char>, int)>
    decreases names.difference(visited).len(), stack.len(),
{
    if stack.len() == 0 || !names.finite() {
        Seq::empty()
    } else {
        let cur = stack.last();
        let rest = stack.drop_last();
        if visited.contains(cur) || !names.contains(cur) {
            dfs_trace(t, names, rest, visited)
        } else {
            proof {
                assert(names.difference(visited.insert(cur)) =~= names.difference(visited).remove(cur));
                vstd::set::axiom_set_difference_finite(names, visited);
                vstd::set::axiom_set_remove_len(names.difference(visited), cur);
            }
            match decl_line(t, cur) {
                None => dfs_trace(t, names, rest, visited.insert(cur)),
                Some(l) => seq![flow_entry_of(t, cur)] + dfs_trace(
                    t,
                    names,
                    rest + upstream_vars(rhs_at_line(t, l)),
                    visited.insert(cur),
                ),
            }
        }
    }
}

/// The trace of `var` in `t`, step by step, in depth-first order.
pub open spec fn trace_spec(t: SyntaxTree, var: Seq<char>) -> Seq<(Seq<char>, Seq<char>, int)> {
    dfs_trace(t, trace_names(t, var), seq![var], Set::empty())
}

/// The views of the steps of a trace.
pub open spec fn trace_views(v: Seq<FlowEntry>) -> Seq<(Seq<char>, Seq<char>, int)> {
    v.map_values(|e: FlowEntry| flow_view(e))
}

/// The trace of variable `var` in `t`: for `var` and, in turn, each
/// variable used by the initializer of a variable met, its declaration
/// line and initializer, in the order a depth-first search meets them,
/// each variable once; undeclared variables are skipped.
#[verifier::rlimit(80)]
#[verifier::spinoff_prover]
pub fn trace_variable_in(t: &SyntaxTree, start_line: usize, var: &str) -> (r: Vec<FlowEntry>)
    requires
        t.wf(),
    ensures
        trace_ok(*t, var@, r@),
        trace_views(r@) == trace_spec(*t, var@),
{
    let decls = collect_all_decls(t);
    let ghost dv = decl_views(decls@);
    let ghost ups = all_upstream(*t, dv);
    let ghost cands = ups.push(var@).to_set();
    assert(cands == trace_names(*t, var@));
    proof {
        vstd::seq_lib::seq_to_set_is_finite(ups.push(var@));
        assert(ups.push(var@)[ups.len() as int] == var@);
    }
    let mut path: Vec<FlowEntry> = Vec::new();
    let mut visited: Vec<String> = Vec::new();
    let mut stack: Vec<(String, usize)> = Vec::new();
    stack.push((var.to_string(), start_line));
    proof {
        assert(flow_path(*t, seq![var@]));
        assert(seq![var@][0] == var@);
        assert(string_views(visited@).to_set() =~= Set::<Seq<char>>::empty());
        assert(stack_names(stack@) =~= seq![var@]);
        assert(stack_names(stack@)[0] == var@);
        assert(trace_views(path@) + dfs_trace(*t, cands, stack_names(stack@), string_views(visited@).to_set())
            =~= trace_spec(*t, var@));
    }
    while stack.len() > 0
        invariant
            t.wf(),
            dv == decl_views(decls@),
            dv == all_decls(*t),
            ups == all_upstream(*t, dv),
            cands == ups.push(var@).to_set(),
            cands.finite(),
            forall|n: Seq<char>| #[trigger] string_views(visited@).contains(n) ==> cands.contains(n) && flow_reaches(*t, var@, n),
            forall|n: Seq<char>| #[trigger] stack_names(stack@).contains(n) ==> cands.contains(n) && flow_reaches(*t, var@, n),
            string_views(visited@).contains(var@) || stack_names(stack@).contains(var@),
            forall|a: Seq<char>, b: Seq<char>| string_views(visited@).contains(a) && #[trigger] flow_step(*t, a, b)
                ==> string_views(visited@).contains(b) || stack_names(stack@).contains(b),
            forall|i: int| 0 <= i < path@.len() ==> decl_line(*t, (#[trigger] path@[i]).var@) is Some
                && flow_view(path@[i]) == flow_entry_of(*t, path@[i].var@),
            forall|i: int, j: int| 0 <= i < j < path@.len() ==> (#[trigger] path@[i]).var@ != (#[trigger] path@[j]).var@,
            forall|n: Seq<char>| #[trigger] trace_vars(path@).contains(n)
                <==> string_views(visited@).contains(n) && decl_line(*t, n) is Some,
            visited@.len() == 0 ==> stack_names(stack@) == seq![var@] && path@.len() == 0,
            visited@.len() > 0 && decl_line(*t, var@) is Some ==> path@.len() > 0 && path@[0].var@ == var@,
            cands == trace_names(*t, var@),
            trace_views(path@) + dfs_trace(*t, cands, stack_names(stack@), string_views(visited@).to_set())
                == trace_spec(*t, var@),
        decreases cands.difference(string_views(visited@).to_set()).len(), stack@.len(),
    {
        let ghost sraw0 = stack@;
        let ghost st0 = stack_names(stack@);
        let ghost vis0 = string_views(visited@);
        let ghost path0 = path@;
        let popped = stack.pop().unwrap();
        let cur = popped.0;
        let ghost st1 = stack_names(stack@);
        proof {
            assert(sraw0 == stack@.push(popped));
            assert(st0 =~= st1.push(cur@));
            assert(st0[st1.len() as int] == cur@);
            assert(st0.contains(cur@));
            assert forall|n: Seq<char>| #[trigger] st1.contains(n) implies st0.contains(n) by {
                let i = choose|i: int| 0 <= i < st1.len() && st1[i] == n;
                assert(st0[i] == n);
            }
            assert forall|n: Seq<char>| #[trigger] st0.contains(n) implies st1.contains(n) || n == cur@ by {
                let i = choose|i: int| 0 <= i < st0.len() && st0[i] == n;
                if i < st1.len() {
                    assert(st1[i] == n);
                }
            }
        }
        proof {
            if visited@.len() == 0 {
                assert(st0 == seq![var@]);
                assert(cur@ == var@);
            }
        }
        proof {
            assert(st0.drop_last() =~= st1);
            assert(st0.last() == cur@);
        }
        if contains_str(&visited, cur.as_str()) {
            proof {
                if visited@.len() == 0 {
                    assert(string_views(visited@) =~= Seq::<Seq<char>>::empty());
                }
                assert(vis0.to_set().contains(cur@));
            }
        } else {
            let ghost vraw = visited@;
            let y = cur.clone();
            visited.push(y);
            let ghost vis1 = string_views(visited@);
            proof {
                lemma_views_push(vraw, y);
                assert(vis1 =~= vis0.push(cur@));
                assert(vis1.to_set() =~= vis0.to_set().insert(cur@)) by {
                    vis0.lemma_push_to_set_commute(cur@);
                }
                assert(cands.difference(vis1.to_set()) =~= cands.difference(vis0.to_set()).remove(cur@));
                vstd::set::axiom_set_difference_finite(cands, vis0.to_set());
                vstd::set::axiom_set_remove_len(cands.difference(vis0.to_set()), cur@);
                assert(vis1[vis0.len() as int] == cur@);
                assert forall|n: Seq<char>| #[trigger] vis1.contains(n) implies vis0.contains(n) || n == cur@ by {
                    let i = choose|i: int| 0 <= i < vis1.len() && vis1[i] == n;
                    if i < vis0.len() {
                        assert(vis0[i] == n);
                    }
                }
                assert forall|n: Seq<char>| #[trigger] vis0.contains(n) implies vis1.contains(n) by {
                    let i = choose|i: int| 0 <= i < vis0.len() && vis0[i] == n;
                    assert(vis1[i] == n);
                }
            }
            proof {
                assert(!vis0.to_set().contains(cur@)) by {
                    if vis0.to_set().contains(cur@) {
                        assert(vis0.contains(cur@));
                    }
                }
                assert(cands.contains(cur@));
            }
            match lookup_decl(&decls, cur.as_str()) {
                None => {
                    proof {
                        assert(decl_line(*t, cur@) is None);
                        assert forall|b: Seq<char>| !flow_step(*t, cur@, b) by {}
                        assert forall|a: Seq<char>, b: Seq<char>| vis1.contains(a) && #[trigger] flow_step(*t, a, b)
                            implies vis1.contains(b) || st1.contains(b) by {
                            if a != cur@ {
                                assert(vis0.contains(a));
                                if st0.contains(b) && b != cur@ {
                                    assert(st1.contains(b));
                                }
                            }
                        }
                        assert forall|n: Seq<char>| #[trigger] trace_vars(path@).contains(n)
                            <==> vis1.contains(n) && decl_line(*t, n) is Some by {
                            if vis1.contains(n) && n != cur@ {
                                assert(vis0.contains(n));
                            }
                        }
                    }
                },
                Some(dl) => {
                    let stmt = extract_stmt_at_line(t, dl);
                    let from = match stmt {
                        Some(x) => extract_rhs(x.as_str()),
                        None => String::new(),
                    };
                    let upv = extract_upstream_vars(from.as_str());
                    let ghost upw = string_views(upv@);
                    proof {
                        assert(decl_line(*t, cur@) == Some(dl as int));
                        assert(from@ == rhs_at_line(*t, dl as int));
                        assert(upw == upstream_vars(rhs_at_line(*t, dl as int)));
                    }
                    let entry = FlowEntry { var: cur.clone(), from, line: dl };
                    path.push(entry);
                    proof {
                        assert(trace_views(path@) =~= trace_views(path0).push(flow_entry_of(*t, cur@)));
                        if path0.len() > 0 {
                            assert(path@[0] == path0[0]);
                        }
                        assert(trace_vars(path@) =~= trace_vars(path0).push(cur@));
                        assert(!trace_vars(path0).contains(cur@));
                        assert forall|i: int, j: int| 0 <= i < j < path@.len() implies
                            (#[trigger] path@[i]).var@ != (#[trigger] path@[j]).var@ by {
                            if j == path0.len() {
                                assert(path@[i] == path0[i]);
                                assert(trace_vars(path0)[i] == path0[i].var@);
                            } else {
                                assert(path@[i] == path0[i] && path@[j] == path0[j]);
                            }
                        }
                        assert forall|i: int| 0 <= i < path@.len() implies decl_line(*t, (#[trigger] path@[i]).var@) is Some
                            && flow_view(path@[i]) == flow_entry_of(*t, path@[i].var@) by {
                            if i < path0.len() {
                                assert(path@[i] == path0[i]);
                            }
                        }
                        assert forall|n: Seq<char>| #[trigger] trace_vars(path@).contains(n)
                            <==> vis1.contains(n) && decl_line(*t, n) is Some by {
                            let tv = trace_vars(path@);
                            let t0 = trace_vars(path0);
                            if tv.contains(n) && n != cur@ {
                                let i = choose|i: int| 0 <= i < tv.len() && tv[i] == n;
                                assert(t0[i] == n);
                                assert(t0.contains(n));
                                assert(vis0.contains(n));
                                assert(vis1.contains(n));
                            }
                            if n == cur@ {
                                assert(tv[t0.len() as int] == n);
                                assert(vis1.contains(n));
                            } else if vis1.contains(n) && decl_line(*t, n) is Some {
                                assert(vis0.contains(n));
                                assert(t0.contains(n));
                                let i = choose|i: int| 0 <= i < t0.len() && t0[i] == n;
                                assert(tv[i] == n);
                            }
                        }
                        lemma_assoc_value(dv, cur@);
                        let vals = dv.map_values(|e: (Seq<char>, int)| e.1);
                        let di = choose|di: int| 0 <= di < vals.len() && vals[di] == dl as int;
                        assert(dv[di].1 == dl as int);
                        assert forall|w: Seq<char>| upw.contains(w) implies #[trigger] cands.contains(w) by {
                            lemma_all_upstream(*t, dv, di, w);
                            let k = choose|k: int| 0 <= k < ups.len() && ups[k] == w;
                            assert(ups.push(var@)[k] == w);
                        }
                    }
                    let ghost st2 = stack_names(stack@);
                    let mut q: usize = 0;
                    while q < upv.len()
                        invariant
                            upw == string_views(upv@),
                            q <= upv@.len(),
                            flow_reaches(*t, var@, cur@),
                            decl_line(*t, cur@) == Some(dl as int),
                            upw == upstream_vars(rhs_at_line(*t, dl as int)),
                            forall|w: Seq<char>| upw.contains(w) ==> #[trigger] cands.contains(w),
                            forall|n: Seq<char>| #[trigger] st2.contains(n) ==> stack_names(stack@).contains(n),
                            forall|n: Seq<char>| #[trigger] stack_names(stack@).contains(n) ==> st2.contains(n)
                                || cands.contains(n) && flow_reaches(*t, var@, n),
                            forall|m: int| 0 <= m < q ==> stack_names(stack@).contains(#[trigger] upw[m]),
                            stack_names(stack@) == st2 + upw.take(q as int),
                        decreases upv@.len() - q,
                    {
                        let ghost sk = stack@;
                        let ghost skn = stack_names(stack@);
                        let w = upv[q].clone();
                        proof {
                            assert(upw[q as int] == w@);
                            assert(upw.contains(w@));
                            assert(flow_step(*t, cur@, w@));
                            let p = choose|p: Seq<Seq<char>>| #[trigger] flow_path(*t, p) && p[0] == var@ && p.last() == cur@;
                            lemma_flow_path_push(*t, p, w@);
                        }
                        stack.push((w, dl));
                        proof {
                            assert(stack_names(stack@) =~= skn.push(upw[q as int]));
                            assert(st2 + upw.take(q + 1) =~= (st2 + upw.take(q as int)).push(upw[q as int]));
                            assert(stack_names(stack@)[skn.len() as int] == upw[q as int]);
                            assert forall|n: Seq<char>| #[trigger] st2.contains(n) implies stack_names(stack@).contains(n) by {
                                assert(skn.contains(n));
                                let i = choose|i: int| 0 <= i < skn.len() && skn[i] == n;
                                assert(stack_names(stack@)[i] == n);
                            }
                            assert forall|n: Seq<char>| #[trigger] stack_names(stack@).contains(n) implies st2.contains(n)
                                || cands.contains(n) && flow_reaches(*t, var@, n) by {
                                if n != upw[q as int] {
                                    let i = choose|i: int| 0 <= i < stack_names(stack@).len() && stack_names(stack@)[i] == n;
                                    assert(skn[i] == n);
                                    assert(skn.contains(n));
                                }
                            }
                            assert forall|m: int| 0 <= m < q + 1 implies stack_names(stack@).contains(#[trigger] upw[m]) by {
                                if m < q {
                                    assert(skn.contains(upw[m]));
                                    let i = choose|i: int| 0 <= i < skn.len() && skn[i] == upw[m];
                                    assert(stack_names(stack@)[i] == upw[m]);
                                }
                            }
                        }
                        q = q + 1;
                    }
                    proof {
                        assert(upw.take(upw.len() as int) =~= upw);
                        assert(st2 == st1);
                        assert(trace_views(path@) + dfs_trace(*t, cands, stack_names(stack@), vis1.to_set())
                            =~= trace_views(path0) + dfs_trace(*t, cands, st0, vis0.to_set()));
                        assert forall|b: Seq<char>| #[trigger] flow_step(*t, cur@, b) implies stack_names(stack@).contains(b) by {
                            let m = choose|m: int| 0 <= m < upw.len() && upw[m] == b;
                            assert(stack_names(stack@).contains(upw[m]));
                        }
                        assert forall|a: Seq<char>, b: Seq<char>| vis1.contains(a) && #[trigger] flow_step(*t, a, b)
                            implies vis1.contains(b) || stack_names(stack@).contains(b) by {
                            if a != cur@ {
                                assert(vis0.contains(a));
                                if st0.contains(b) && b != cur@ {
                                    assert(st1.contains(b));
                                    assert(st2.contains(b));
                                }
                            }
                        }
                        assert forall|n: Seq<char>| #[trigger] stack_names(stack@).contains(n) implies
                            cands.contains(n) && flow_reaches(*t, var@, n) by {
                            if st2.contains(n) {
                                assert(st1.contains(n));
                                assert(st0.contains(n));
                            }
                        }
                    }
                },
            }
        }
    }
    proof {
        if visited@.len() == 0 {
            assert(stack_names(stack@).len() == 1);
        }
        let vs = string_views(visited@).to_set();
        assert forall|a: Seq<char>, b: Seq<char>| vs.contains(a) && #[trigger] flow_step(*t, a, b) implies vs.contains(b) by {
            assert(string_views(visited@).contains(a));
            assert(stack_names(stack@) =~= Seq::<Seq<char>>::empty());
        }
        assert forall|n: Seq<char>| #[trigger] trace_vars(path@).contains(n)
            <==> flow_reaches(*t, var@, n) && decl_line(*t, n) is Some by {
            if flow_reaches(*t, var@, n) {
                let p = choose|p: Seq<Seq<char>>| #[trigger] flow_path(*t, p) && p[0] == var@ && p.last() == n;
                assert(stack_names(stack@) =~= Seq::<Seq<char>>::empty());
                assert(vs.contains(p[0]));
                lemma_flow_closed(*t, vs, p, p.len() - 1);
            }
        }
    }
    path
}


/// The trace of variable `var` in a parsed file.
pub fn trace_variable(source: &str, tree: &tree_sitter::Tree, start_line: usize, var: &str) -> (r: Vec<FlowEntry>)
    ensures
        exists|t: SyntaxTree| models(t, *tree, source@) && #[trigger] trace_ok(t, var@, r@)
            && trace_views(r@) == trace_spec(t, var@),
{
    match syntax_tree_from(tree, source) {
        Some(t) => trace_variable_in(&t, start_line, var),
        None => Vec::new(),
    }
}

} // verus!
