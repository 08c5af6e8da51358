//! Symbol tables of one file and the replacements that renaming a symbol
//! asks for.
use vstd::prelude::*;
use crate::syntax::{SyntaxTree, collect_some};
use crate::text::{str_equal, contains_str, decimal, decimal_string, string_views};
use crate::detect::dead_code::{function_def, callee_name, call_name};
use crate::lang::backend::{syntax_tree_from, models};

verus! {

broadcast use vstd::string::group_string_axioms;

/// A symbol table: each defined symbol with the places that refer to it.
pub struct SymbolTable {
    pub symbols: Vec<Symbol>,
}

pub struct Symbol {
    pub name: String,
    pub kind: SymbolKind,
    pub def_file: String,
    pub def_line: usize,
    pub refs: Vec<RefLocation>,
}

#[derive(Debug, Clone, Copy, PartialEq, Eq, Structural)]
pub enum SymbolKind {
    Function,
    Variable,
    Module,
}

pub struct RefLocation {
    pub file: String,
    pub line: usize,
}

/// A symbol as plain values: name, kind, file and line of the definition,
/// and the file and line of each reference.
pub struct SymbolView {
    pub name: Seq<char>,
    pub kind: SymbolKind,
    pub def_file: Seq<char>,
    pub def_line: int,
    pub refs: Seq<(Seq<char>, int)>,
}

impl View for Symbol {
    type V = SymbolView;

    open spec fn view(&self) -> SymbolView {
        SymbolView {
            name: self.name@,
            kind: self.kind,
            def_file: self.def_file@,
            def_line: self.def_line as int,
            refs: self.refs@.map_values(|r: RefLocation| (r.file@, r.line as int)),
        }
    }
}

impl View for SymbolTable {
    type V = Seq<SymbolView>;

    open spec fn view(&self) -> Seq<SymbolView> {
        self.symbols@.map_values(|s: Symbol| s@)
    }
}

/// The line of node `j` when it is a call of `name`.
pub open spec fn call_of_at(t: SyntaxTree, file: Seq<char>, name: Seq<char>) -> spec_fn(int) -> Option<(Seq<char>, int)> {
    |j: int| if callee_name(t, j) == Some(name) { Some((file, t.line(j))) } else { None }
}

/// The calls of `name` in the tree, in pre-order.
pub open spec fn references_of(t: SyntaxTree, file: Seq<char>, name: Seq<char>) -> Seq<(Seq<char>, int)> {
    collect_some(call_of_at(t, file, name), 0, t.len())
}

/// The symbol that node `i` defines, if it is a function.
pub open spec fn symbol_at(t: SyntaxTree, file: Seq<char>) -> spec_fn(int) -> Option<SymbolView> {
    |i: int| match function_def(t, i) {
        Some(d) => Some(SymbolView {
            name: d.0,
            kind: SymbolKind::Function,
            def_file: file,
            def_line: d.1,
            refs: references_of(t, file, d.0),
        }),
        None => None,
    }
}

/// The symbol table of a file: its functions in pre-order, each with the
/// calls of its name.
pub open spec fn symbol_table_spec(t: SyntaxTree, file: Seq<char>) -> Seq<SymbolView> {
    collect_some(symbol_at(t, file), 0, t.len())
}

/// The calls of `name` in `tree`, located in `file`.
fn references_in(tree: &SyntaxTree, file: &str, name: &str) -> (r: Vec<RefLocation>)
    requires
        tree.wf(),
    ensures
        r@.map_values(|x: RefLocation| (x.file@, x.line as int)) == references_of(*tree, file@, name@),
{
    let ghost f = call_of_at(*tree, file@, name@);
    let mut r: Vec<RefLocation> = Vec::new();
    let mut j: usize = 0;
    while j < tree.nodes.len()
        invariant
            tree.wf(),
            j <= tree.len(),
            f == call_of_at(*tree, file@, name@),
            r@.map_values(|x: RefLocation| (x.file@, x.line as int)) == collect_some(f, 0, j as int),
        decreases tree.len() - j,
    {
        assert(tree.node_ok(j as int));
        match call_name(tree, j) {
            Some(callee) => {
                if str_equal(callee.as_str(), name) {
                    r.push(RefLocation { file: file.to_string(), line: tree.nodes[j].start_row + 1 });
                }
            },
            None => {},
        }
        assert(r@.map_values(|x: RefLocation| (x.file@, x.line as int)) =~= collect_some(f, 0, j + 1));
        j = j + 1;
    }
    r
}

/// The symbol table of `tree`, a parse of `file`: every function with the
/// calls of its name.
pub fn symbol_table_of(tree: &SyntaxTree, file: &str) -> (r: SymbolTable)
    requires
        tree.wf(),
    ensures
        r@ == symbol_table_spec(*tree, file@),
{
    let ghost f = symbol_at(*tree, file@);
    let mut symbols: Vec<Symbol> = Vec::new();
    let mut i: usize = 0;
    while i < tree.nodes.len()
        invariant
            tree.wf(),
            i <= tree.len(),
            f == symbol_at(*tree, file@),
            symbols@.map_values(|s: Symbol| s@) == collect_some(f, 0, i as int),
        decreases tree.len() - i,
    {
        assert(tree.node_ok(i as int));
        if tree.nodes[i].named && tree.kind_is(i, "function_item") {
            match tree.child_by_field(i, "name") {
                Some(c) => match tree.text_of(c) {
                    Some(name) => {
                        let refs = references_in(tree, file, name.as_str());
                        let s = Symbol {
                            name,
                            kind: SymbolKind::Function,
                            def_file: file.to_string(),
                            def_line: tree.nodes[i].start_row + 1,
                            refs,
                        };
                        symbols.push(s);
                    },
                    None => {},
                },
                None => {},
            }
        }
        assert(symbols@.map_values(|s: Symbol| s@) =~= collect_some(f, 0, i + 1));
        i = i + 1;
    }
    SymbolTable { symbols }
}

/// The symbol table of a parsed file.
pub fn build_symbol_table(source: &str, tree: &tree_sitter::Tree, file: &str) -> (r: SymbolTable)
    ensures
        exists|t: SyntaxTree| models(t, *tree, source@)
            && r@ == #[trigger] symbol_table_spec(t, file@),
{
    match syntax_tree_from(tree, source) {
        Some(t) => symbol_table_of(&t, file),
        None => SymbolTable { symbols: Vec::new() },
    }
}

/// The key of a location: `file:line`.
pub open spec fn location_key(file: Seq<char>, line: int) -> Seq<char> {
    file + ":"@ + decimal(line as nat)
}

/// The keys of a symbol's definition and of its references, in order.
pub open spec fn symbol_keys(s: SymbolView) -> Seq<Seq<char>> {
    seq![location_key(s.def_file, s.def_line)] + s.refs.map_values(|r: (Seq<char>, int)| location_key(r.0, r.1))
}

/// The keys of the symbols named `name`, in table order, repeats included.
pub open spec fn rename_keys(syms: Seq<SymbolView>, name: Seq<char>) -> Seq<Seq<char>>
    decreases syms.len(),
{
    if syms.len() == 0 {
        Seq::empty()
    } else {
        rename_keys(syms.drop_last(), name) + if syms.last().name == name {
            symbol_keys(syms.last())
        } else {
            Seq::empty()
        }
    }
}

/// The elements of `s` without repeats, each where it first occurs.
pub open spec fn first_occurrences(s: Seq<Seq<char>>) -> Seq<Seq<char>>
    decreases s.len(),
{
    if s.len() == 0 {
        Seq::empty()
    } else if s.drop_last().contains(s.last()) {
        first_occurrences(s.drop_last())
    } else {
        first_occurrences(s.drop_last()).push(s.last())
    }
}

/// The elements kept are exactly the elements of `s`.
pub proof fn lemma_first_occurrences_contains(s: Seq<Seq<char>>, x: Seq<char>)
    ensures
        first_occurrences(s).contains(x) <==> s.contains(x),
    decreases s.len(),
{
    if s.len() > 0 {
        lemma_first_occurrences_contains(s.drop_last(), x);
        assert(s == s.drop_last().push(s.last()));
        if s.contains(x) && x != s.last() {
            let k = choose|k: int| 0 <= k < s.len() && s[k] == x;
            assert(s.drop_last()[k] == x);
        }
        if s.drop_last().contains(x) {
            let k = choose|k: int| 0 <= k < s.drop_last().len() && s.drop_last()[k] == x;
            assert(s[k] == x);
        }
        let prev = first_occurrences(s.drop_last());
        if !s.drop_last().contains(s.last()) {
            assert(prev.push(s.last())[prev.len() as int] == s.last());
            if prev.contains(x) {
                let k = choose|k: int| 0 <= k < prev.len() && prev[k] == x;
                assert(prev.push(s.last())[k] == x);
            }
            if prev.push(s.last()).contains(x) && x != s.last() {
                let k = choose|k: int| 0 <= k < prev.len() + 1 && prev.push(s.last())[k] == x;
                assert(prev[k] == x);
            }
        }
    }
}

/// The elements kept hold no repeat.
proof fn lemma_first_occurrences_distinct(s: Seq<Seq<char>>)
    ensures
        first_occurrences(s).no_duplicates(),
    decreases s.len(),
{
    if s.len() > 0 {
        lemma_first_occurrences_distinct(s.drop_last());
        let prev = first_occurrences(s.drop_last());
        if !s.drop_last().contains(s.last()) {
            lemma_first_occurrences_contains(s.drop_last(), s.last());
            let next = prev.push(s.last());
            assert forall|a: int, b: int| 0 <= a < next.len() && 0 <= b < next.len() && a != b
                implies next[a] != next[b] by {
                if a < prev.len() && b < prev.len() {
                    assert(next[a] == prev[a] && next[b] == prev[b]);
                } else if a < prev.len() {
                    assert(next[a] == prev[a]);
                    assert(prev.contains(prev[a]));
                } else {
                    assert(next[b] == prev[b]);
                    assert(prev.contains(prev[b]));
                }
            }
        }
    }
}

/// The replacements for renaming `old_name` to `new_name`: one entry for
/// the definition and one for each reference of every symbol so named,
/// keyed `file:line`, each key once, in the order first met.
pub open spec fn renames(syms: Seq<SymbolView>, old_name: Seq<char>, new_name: Seq<char>) -> Seq<(Seq<char>, Seq<char>)> {
    first_occurrences(rename_keys(syms, old_name)).map_values(|k: Seq<char>| (k, new_name))
}

/// The key `file:line`.
fn key_of(file: &str, line: usize) -> (r: String)
    ensures
        r@ == location_key(file@, line as int),
{
    let mut k = file.to_string();
    k.append(":");
    k.append(decimal_string(line).as_str());
    k
}

/// Appends `key` unless it is already present.
fn insert_key(keys: &mut Vec<String>, key: String)
    ensures
        string_views(final(keys)@) == if string_views(old(keys)@).contains(key@) {
            string_views(old(keys)@)
        } else {
            string_views(old(keys)@).push(key@)
        },
{
    proof {
        assert(string_views(keys@) == keys@.map_values(|s: String| s@));
    }
    if !contains_str(keys, key.as_str()) {
        keys.push(key);
        assert(string_views(keys@) =~= string_views(old(keys)@).push(key@));
    }
}

/// The replacements for renaming `old_name` to `new_name`, as
/// `(file:line, new_name)` pairs with distinct keys.
pub fn rename_symbol(table: &SymbolTable, old_name: &str, new_name: &str) -> (r: Vec<(String, String)>)
    ensures
        r@.map_values(|p: (String, String)| (p.0@, p.1@)) == renames(table@, old_name@, new_name@),
{
    let mut keys: Vec<String> = Vec::new();
    let mut i: usize = 0;
    while i < table.symbols.len()
        invariant
            i <= table.symbols@.len(),
            string_views(keys@) == first_occurrences(rename_keys(table@.take(i as int), old_name@)),
        decreases table.symbols@.len() - i,
    {
        let sym = &table.symbols[i];
        let ghost before = rename_keys(table@.take(i as int), old_name@);
        assert(table@.take(i + 1).drop_last() =~= table@.take(i as int));
        assert(table@.take(i + 1).last() == sym@);
        if str_equal(sym.name.as_str(), old_name) {
            let ghost sk = symbol_keys(sym@);
            proof {
                assert(sk[0] == location_key(sym@.def_file, sym@.def_line));
                assert(before + sk.take(1) =~= before.push(sk[0]));
                assert(before.push(sk[0]).drop_last() =~= before);
                lemma_first_occurrences_contains(before, sk[0]);
            }
            insert_key(&mut keys, key_of(sym.def_file.as_str(), sym.def_line));
            let mut j: usize = 0;
            while j < sym.refs.len()
                invariant
                    j <= sym.refs@.len(),
                    sk == symbol_keys(sym@),
                    sk.len() == sym.refs@.len() + 1,
                    string_views(keys@) == first_occurrences(before + sk.take(j + 1)),
                decreases sym.refs@.len() - j,
            {
                let rf = &sym.refs[j];
                proof {
                    assert(sk[j + 1] == location_key(rf.file@, rf.line as int));
                    assert((before + sk.take(j + 2)).drop_last() =~= before + sk.take(j + 1));
                    assert((before + sk.take(j + 2)).last() == sk[j + 1]);
                    lemma_first_occurrences_contains(before + sk.take(j + 1), sk[j + 1]);
                }
                insert_key(&mut keys, key_of(rf.file.as_str(), rf.line));
                j = j + 1;
            }
            assert(sk.take(sym.refs@.len() + 1 as int) =~= sk);
        } else {
            assert(rename_keys(table@.take(i + 1), old_name@) =~= before);
        }
        i = i + 1;
    }
    assert(table@.take(table.symbols@.len() as int) =~= table@);
    let mut r: Vec<(String, String)> = Vec::new();
    let mut k: usize = 0;
    while k < keys.len()
        invariant
            k <= keys@.len(),
            r@.len() == k,
            forall|m: int| 0 <= m < k ==> #[trigger] r@[m].0@ == keys@[m]@ && r@[m].1@ == new_name@,
        decreases keys@.len() - k,
    {
        r.push((keys[k].clone(), new_name.to_string()));
        k = k + 1;
    }
    assert(r@.map_values(|p: (String, String)| (p.0@, p.1@)) =~= renames(table@, old_name@, new_name@));
    r
}

/// The references of a symbol are exactly the calls of its name: a
/// location is among the references of a symbol of the table exactly when
/// it is in the table's file, on the line of a call whose callee is the
/// symbol's name; and the table holds a symbol exactly for each function
/// the tree defines, at its line.
pub proof fn lemma_references_are_calls(t: SyntaxTree, file: Seq<char>, s: SymbolView, loc: (Seq<char>, int))
    requires
        symbol_table_spec(t, file).contains(s),
    ensures
        s.def_file == file,
        exists|i: int| 0 <= i < t.len() && #[trigger] function_def(t, i) == Some((s.name, s.def_line)),
        s.refs.contains(loc) <==> loc.0 == file && exists|j: int| 0 <= j < t.len()
            && t.kind(j) == "call_expression"@ && #[trigger] callee_name(t, j) == Some(s.name) && t.line(j) == loc.1,
{
    crate::syntax::lemma_collect_some_contains(symbol_at(t, file), 0, t.len(), s);
    let i = choose|i: int| 0 <= i < t.len() && #[trigger] symbol_at(t, file)(i) == Some(s);
    assert(function_def(t, i) == Some((s.name, s.def_line)));
    assert(s.refs == references_of(t, file, s.name));
    crate::syntax::lemma_collect_some_contains(call_of_at(t, file, s.name), 0, t.len(), loc);
    if s.refs.contains(loc) {
        let j = choose|j: int| 0 <= j < t.len() && #[trigger] call_of_at(t, file, s.name)(j) == Some(loc);
        assert(callee_name(t, j) == Some(s.name));
    }
    if loc.0 == file && exists|j: int| 0 <= j < t.len()
        && t.kind(j) == "call_expression"@ && #[trigger] callee_name(t, j) == Some(s.name) && t.line(j) == loc.1 {
        let j = choose|j: int| 0 <= j < t.len()
            && t.kind(j) == "call_expression"@ && #[trigger] callee_name(t, j) == Some(s.name) && t.line(j) == loc.1;
        assert(call_of_at(t, file, s.name)(j) == Some(loc));
    }
}

/// Every function that the tree defines has its symbol in the table.
pub proof fn lemma_every_function_has_a_symbol(t: SyntaxTree, file: Seq<char>, i: int)
    requires
        0 <= i < t.len(),
        function_def(t, i) is Some,
    ensures
        exists|s: SymbolView| #[trigger] symbol_table_spec(t, file).contains(s)
            && s.name == function_def(t, i).unwrap().0 && s.def_line == function_def(t, i).unwrap().1,
{
    let s = symbol_at(t, file)(i).unwrap();
    crate::syntax::lemma_collect_some_contains(symbol_at(t, file), 0, t.len(), s);
    assert(symbol_table_spec(t, file).contains(s));
}

/// A rename names each location once, and every location gets the new
/// name.
pub proof fn lemma_renames_distinct(syms: Seq<SymbolView>, old_name: Seq<char>, new_name: Seq<char>)
    ensures
        renames(syms, old_name, new_name).map_values(|p: (Seq<char>, Seq<char>)| p.0).no_duplicates(),
        forall|i: int| 0 <= i < renames(syms, old_name, new_name).len()
            ==> (#[trigger] renames(syms, old_name, new_name)[i]).1 == new_name,
{
    let ks = first_occurrences(rename_keys(syms, old_name));
    lemma_first_occurrences_distinct(rename_keys(syms, old_name));
    assert(renames(syms, old_name, new_name).map_values(|p: (Seq<char>, Seq<char>)| p.0) =~= ks);
}

} // verus!
