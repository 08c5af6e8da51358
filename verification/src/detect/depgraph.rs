//! The module dependency graph of a Rust crate, read from `mod` and
//! `use crate::` lines, and the slices of it around one module.
use vstd::prelude::*;
use crate::text::{
    starts_with, ends_with, contains, trim, lines_of, first_occurrence, string_views,
    str_starts_with, substring, str_ends_with, str_contains, str_equal, trim_str, lines, chars_of,
    sub_chars, string_of, find_from, concat, lemma_views_push, lemma_first_occurrence, contains_str,
    clone_strings,
};
use crate::paths::{components, relative_components, path_text, path_components,
    strip_prefix_components, components_text};
use crate::order::{strictly_sorted, sorted_distinct, sorted_list, lemma_sorted_list_exists};

verus! {

broadcast use vstd::string::group_string_axioms;

/// Modules and the `(from, to)` dependencies between them.
pub struct DepGraph {
    pub nodes: Vec<String>,
    pub edges: Vec<(String, String)>,
}

pub struct DepGraphView {
    pub nodes: Seq<Seq<char>>,
    pub edges: Seq<(Seq<char>, Seq<char>)>,
}

impl View for DepGraph {
    type V = DepGraphView;

    open spec fn view(&self) -> DepGraphView {
        DepGraphView {
            nodes: string_views(self.nodes@),
            edges: edge_views(self.edges@),
        }
    }
}

pub open spec fn edge_views(v: Seq<(String, String)>) -> Seq<(Seq<char>, Seq<char>)> {
    v.map_values(|e: (String, String)| (e.0@, e.1@))
}

/// `s` with `p` removed from its end as often as it is there
/// (`str::trim_end_matches`).
pub open spec fn trim_suffix_all(s: Seq<char>, p: Seq<char>) -> Seq<char>
    decreases s.len(),
{
    if p.len() > 0 && ends_with(s, p) {
        trim_suffix_all(s.take(s.len() - p.len()), p)
    } else {
        s
    }
}

/// `s` with each `c` replaced by `r` (`str::replace`).
pub open spec fn replace_char(s: Seq<char>, c: char, r: Seq<char>) -> Seq<char>
    decreases s.len(),
{
    if s.len() == 0 {
        s
    } else {
        replace_char(s.drop_last(), c, r) + if s.last() == c { r } else { seq![s.last()] }
    }
}

/// The module that the file at `file` defines in the crate at `root`:
/// its path below `root` and `src`, without `.rs`, with `::` between the
/// parts; `mod.rs` names its directory, and `main.rs` and `lib.rs` the
/// crate root, written as the empty text.
pub open spec fn module_path_spec(file: Seq<char>, root: Seq<char>) -> Seq<char> {
    let relative = match relative_components(file, root) {
        Some(rc) => rc,
        None => components(file),
    };
    let without_src = if relative.len() > 0 && relative[0] == "src"@ { relative.drop_first() } else { relative };
    let without_ext = trim_suffix_all(path_text(without_src), ".rs"@);
    let module = replace_char(replace_char(without_ext, '/', "::"@), '\\', "::"@);
    let trimmed = trim_suffix_all(module, "::mod"@);
    if ends_with(module, "::mod"@) && trimmed.len() > 0 {
        trimmed
    } else if module.len() == 0 || module == "main"@ || module == "lib"@ {
        Seq::empty()
    } else {
        module
    }
}

/// The dependency that a `mod name;` line of module `mp` declares.
pub open spec fn mod_edge(mp: Seq<char>, line: Seq<char>) -> Seq<(Seq<char>, Seq<char>)> {
    if starts_with(line, "mod "@) && ends_with(line, ";"@) {
        let name = trim(line.subrange(4, line.len() - 1));
        if !contains(name, "{"@) && !contains(name, " "@) {
            seq![(mp, if mp.len() == 0 { name } else { mp + "::"@ + name })]
        } else {
            Seq::empty()
        }
    } else {
        Seq::empty()
    }
}

/// The first part of a `::` path.
pub open spec fn first_segment(p: Seq<char>) -> Seq<char> {
    match first_occurrence(p, "::"@, 0) {
        Some(i) => p.take(i),
        None => p,
    }
}

/// The dependency that a line `<prefix>crate::a::...;` of module `mp`
/// declares: on the top module `a`.
pub open spec fn use_edge(mp: Seq<char>, line: Seq<char>, prefix: Seq<char>) -> Seq<(Seq<char>, Seq<char>)> {
    if starts_with(line, prefix) && ends_with(line, ";"@) {
        let use_path = trim(line.subrange(prefix.len() as int, line.len() - 1));
        if starts_with(use_path, "crate::"@) {
            let target = first_segment(use_path.skip(7));
            if target.len() > 0 { seq![(mp, target)] } else { Seq::empty() }
        } else {
            Seq::empty()
        }
    } else {
        Seq::empty()
    }
}

/// The dependencies that one line of module `mp` declares.
pub open spec fn line_edges(mp: Seq<char>, raw: Seq<char>) -> Seq<(Seq<char>, Seq<char>)> {
    let line = trim(raw);
    mod_edge(mp, line) + use_edge(mp, line, "use "@) + use_edge(mp, line, "pub use "@)
}

/// The dependencies that the lines of module `mp` declare, in order.
pub open spec fn lines_edges(mp: Seq<char>, ls: Seq<Seq<char>>) -> Seq<(Seq<char>, Seq<char>)>
    decreases ls.len(),
{
    if ls.len() == 0 {
        Seq::empty()
    } else {
        lines_edges(mp, ls.drop_last()) + line_edges(mp, ls.last())
    }
}

/// The dependencies that the files declare, file by file.
pub open spec fn files_edges(root: Seq<char>, files: Seq<(Seq<char>, Seq<char>)>) -> Seq<(Seq<char>, Seq<char>)>
    decreases files.len(),
{
    if files.len() == 0 {
        Seq::empty()
    } else {
        files_edges(root, files.drop_last())
            + lines_edges(module_path_spec(files.last().0, root), lines_of(files.last().1))
    }
}

/// The first `::` of `a + "::" + b`, when `a` holds no `:`, ends `a`.
proof fn lemma_first_segment_of(a: Seq<char>, b: Seq<char>)
    requires
        forall|i: int| 0 <= i < a.len() ==> a[i] != ':',
    ensures
        first_segment(a + "::"@ + b) == a,
{
    reveal_strlit("::");
    let x = a + "::"@ + b;
    assert(x.subrange(a.len() as int, a.len() + 2int) =~= "::"@);
    crate::text::lemma_first_occurrence_least(x, "::"@, 0, a.len() as int);
    lemma_first_occurrence(x, "::"@, 0);
    let i = first_occurrence(x, "::"@, 0)->0;
    if i < a.len() {
        assert(x.subrange(i, i + 2)[0] == x[i]);
        assert(x[i] == a[i]);
    }
    assert(x.take(a.len() as int) =~= a);
}

/// A line `<lead>crate::a::b;`, trimmed, of module `mp` declares the
/// dependency of `mp` on `a`.
proof fn lemma_use_line_edge(mp: Seq<char>, raw: Seq<char>, lead: Seq<char>, a: Seq<char>, b: Seq<char>)
    requires
        lead == "use "@ || lead == "pub use "@,
        trim(raw) == lead + "crate::"@ + a + "::"@ + b + ";"@,
        a.len() > 0,
        forall|i: int| 0 <= i < a.len() ==> a[i] != ':',
        b.len() > 0,
        !crate::text::is_ws(b.last()),
    ensures
        line_edges(mp, raw).contains((mp, a)),
{
    reveal_strlit("use ");
    reveal_strlit("pub use ");
    reveal_strlit("crate::");
    reveal_strlit("::");
    reveal_strlit(";");
    let l = trim(raw);
    let inner = "crate::"@ + a + "::"@ + b;
    assert(l.subrange(0, lead.len() as int) =~= lead);
    assert(starts_with(l, lead));
    assert(l.subrange(l.len() - 1, l.len() as int) =~= ";"@);
    assert(ends_with(l, ";"@));
    assert(l.subrange(lead.len() as int, l.len() - 1) =~= inner);
    assert(inner[0] == 'c');
    assert(crate::text::trim_start(inner) == inner);
    assert(inner.last() == b.last());
    assert(crate::text::trim_end(inner) == inner);
    assert(trim(inner) == inner);
    assert(inner.subrange(0, 7) =~= "crate::"@);
    assert(starts_with(inner, "crate::"@));
    assert(inner.skip(7) =~= a + "::"@ + b);
    lemma_first_segment_of(a, b);
    let e = use_edge(mp, l, lead);
    assert(e == seq![(mp, a)]);
    let m = mod_edge(mp, l);
    let u = use_edge(mp, l, "use "@);
    let p = use_edge(mp, l, "pub use "@);
    assert(line_edges(mp, raw) == m + u + p);
    if lead == "use "@ {
        assert((m + u + p)[m.len() as int] == (mp, a));
    } else {
        assert((m + u + p)[(m.len() + u.len()) as int] == (mp, a));
    }
}

/// The dependencies of the lines of a module hold those of each line.
proof fn lemma_lines_edges_hold(mp: Seq<char>, ls: Seq<Seq<char>>, l: int, e: (Seq<char>, Seq<char>))
    requires
        0 <= l < ls.len(),
        line_edges(mp, ls[l]).contains(e),
    ensures
        lines_edges(mp, ls).contains(e),
    decreases ls.len(),
{
    let prev = lines_edges(mp, ls.drop_last());
    let last = line_edges(mp, ls.last());
    if l < ls.len() - 1 {
        assert(ls.drop_last()[l] == ls[l]);
        lemma_lines_edges_hold(mp, ls.drop_last(), l, e);
        let k = choose|k: int| 0 <= k < prev.len() && prev[k] == e;
        assert((prev + last)[k] == e);
    } else {
        let k = choose|k: int| 0 <= k < last.len() && last[k] == e;
        assert((prev + last)[prev.len() + k] == e);
    }
}

/// The dependencies of a graph hold those of each of its files.
proof fn lemma_files_edges_hold(root: Seq<char>, files: Seq<(Seq<char>, Seq<char>)>, f: int, e: (Seq<char>, Seq<char>))
    requires
        0 <= f < files.len(),
        lines_edges(module_path_spec(files[f].0, root), lines_of(files[f].1)).contains(e),
    ensures
        files_edges(root, files).contains(e),
    decreases files.len(),
{
    let prev = files_edges(root, files.drop_last());
    let last = lines_edges(module_path_spec(files.last().0, root), lines_of(files.last().1));
    if f < files.len() - 1 {
        assert(files.drop_last()[f] == files[f]);
        lemma_files_edges_hold(root, files.drop_last(), f, e);
        let k = choose|k: int| 0 <= k < prev.len() && prev[k] == e;
        assert((prev + last)[k] == e);
    } else {
        let k = choose|k: int| 0 <= k < last.len() && last[k] == e;
        assert((prev + last)[prev.len() + k] == e);
    }
}

/// A text without the character `c` does not contain it.
proof fn lemma_lacks_char(n: Seq<char>, c: char)
    requires
        forall|i: int| 0 <= i < n.len() ==> n[i] != c,
    ensures
        !contains(n, seq![c]),
{
    if contains(n, seq![c]) {
        let i = choose|i: int| crate::text::occurs_at(n, seq![c], i);
        assert(n.subrange(i, i + 1)[0] == n[i]);
    }
}

/// A line `mod n;` (trimmed) in the file of module `m`, `n` being one word,
/// gives the graph the dependency of `m` on its submodule `n` (on `n`
/// itself for the crate root).
pub proof fn lemma_mod_line_declares_submodule(
    root: Seq<char>,
    files: Seq<(Seq<char>, Seq<char>)>,
    f: int,
    l: int,
    n: Seq<char>,
)
    requires
        0 <= f < files.len(),
        0 <= l < lines_of(files[f].1).len(),
        trim(lines_of(files[f].1)[l]) == "mod "@ + n + ";"@,
        n.len() > 0,
        !crate::text::is_ws(n[0]),
        !crate::text::is_ws(n.last()),
        forall|i: int| 0 <= i < n.len() ==> n[i] != ' ' && n[i] != '{',
    ensures
        ({
            let m = module_path_spec(files[f].0, root);
            files_edges(root, files).contains((m, if m.len() == 0 { n } else { m + "::"@ + n }))
        }),
{
    reveal_strlit("mod ");
    reveal_strlit(";");
    reveal_strlit("{");
    reveal_strlit(" ");
    let m = module_path_spec(files[f].0, root);
    let raw = lines_of(files[f].1)[l];
    let line = trim(raw);
    assert(line.subrange(0, 4) =~= "mod "@);
    assert(starts_with(line, "mod "@));
    assert(line.subrange(line.len() - 1, line.len() as int) =~= ";"@);
    assert(ends_with(line, ";"@));
    assert(line.subrange(4, line.len() - 1) =~= n);
    assert(crate::text::trim_start(n) == n);
    assert(crate::text::trim_end(n) == n);
    lemma_lacks_char(n, '{');
    lemma_lacks_char(n, ' ');
    assert("{"@ =~= seq!['{']);
    assert(" "@ =~= seq![' ']);
    let e = (m, if m.len() == 0 { n } else { m + "::"@ + n });
    assert(mod_edge(m, line) == seq![e]);
    let me = mod_edge(m, line);
    let u = use_edge(m, line, "use "@);
    let p = use_edge(m, line, "pub use "@);
    assert(line_edges(m, raw) == me + u + p);
    assert((me + u + p)[0] == e);
    lemma_lines_edges_hold(m, lines_of(files[f].1), l, e);
    lemma_files_edges_hold(root, files, f, e);
}

/// A line `use crate::a::...;` or `pub use crate::a::...;` (trimmed) in the
/// file of module `m` gives the graph the dependency of `m` on the top
/// module `a`.
pub proof fn lemma_use_line_declares_dependency(
    root: Seq<char>,
    files: Seq<(Seq<char>, Seq<char>)>,
    f: int,
    l: int,
    lead: Seq<char>,
    a: Seq<char>,
    b: Seq<char>,
)
    requires
        0 <= f < files.len(),
        0 <= l < lines_of(files[f].1).len(),
        lead == "use "@ || lead == "pub use "@,
        trim(lines_of(files[f].1)[l]) == lead + "crate::"@ + a + "::"@ + b + ";"@,
        a.len() > 0,
        forall|i: int| 0 <= i < a.len() ==> a[i] != ':',
        b.len() > 0,
        !crate::text::is_ws(b.last()),
    ensures
        files_edges(root, files).contains((module_path_spec(files[f].0, root), a)),
{
    let mp = module_path_spec(files[f].0, root);
    lemma_use_line_edge(mp, lines_of(files[f].1)[l], lead, a, b);
    lemma_lines_edges_hold(mp, lines_of(files[f].1), l, (mp, a));
    lemma_files_edges_hold(root, files, f, (mp, a));
}

/// The modules of a graph: the module of each file and the target of each
/// dependency.
pub open spec fn graph_modules(root: Seq<char>, files: Seq<(Seq<char>, Seq<char>)>) -> Set<Seq<char>> {
    files.map_values(|f: (Seq<char>, Seq<char>)| module_path_spec(f.0, root)).to_set()
        + files_edges(root, files).map_values(|e: (Seq<char>, Seq<char>)| e.1).to_set()
}

/// `s` without `p` at its end as often as it is there.
fn trim_suffix_all_exec(s: &str, p: &str) -> (r: String)
    requires
        p@.len() > 0,
    ensures
        r@ == trim_suffix_all(s@, p@),
{
    let v = chars_of(s);
    let pl = chars_of(p).len();
    let mut n = v.len();
    assert(s@.take(n as int) =~= s@);
    while n >= pl
        invariant
            v@ == s@,
            pl == p@.len(),
            pl > 0,
            n <= v@.len(),
            trim_suffix_all(s@, p@) == trim_suffix_all(s@.take(n as int), p@),
        ensures
            n <= v@.len(),
            trim_suffix_all(s@, p@) == s@.take(n as int),
        decreases n,
    {
        let cur = string_of(sub_chars(v.as_slice(), 0, n).as_slice());
        assert(cur@ =~= s@.take(n as int));
        if !str_ends_with(cur.as_str(), p) {
            break;
        }
        assert(s@.take(n as int).take(n - pl) =~= s@.take(n - pl));
        n = n - pl;
    }
    let r = string_of(sub_chars(v.as_slice(), 0, n).as_slice());
    assert(r@ =~= s@.take(n as int));
    r
}

/// `s` with each `c` replaced by `rep`.
pub fn replace_char_exec(s: &str, c: char, rep: &str) -> (r: String)
    ensures
        r@ == replace_char(s@, c, rep@),
{
    let v = chars_of(s);
    let mut r = String::new();
    let mut k: usize = 0;
    assert(s@.take(0) =~= Seq::<char>::empty());
    while k < v.len()
        invariant
            v@ == s@,
            k <= v@.len(),
            r@ == replace_char(s@.take(k as int), c, rep@),
        decreases v@.len() - k,
    {
        assert(s@.take(k + 1).drop_last() =~= s@.take(k as int));
        assert(s@.take(k + 1).last() == v@[k as int]);
        if v[k] == c {
            r.append(rep);
        } else {
            crate::text::push_char(&mut r, v[k]);
        }
        assert(r@ =~= replace_char(s@.take(k + 1), c, rep@));
        k = k + 1;
    }
    assert(s@.take(v@.len() as int) =~= s@);
    r
}

/// The module that the file at `file` defines in the crate at `root`
/// (empty for the crate root).
pub fn file_to_module_path(file: &str, root: &str) -> (r: String)
    ensures
        r@ == module_path_spec(file@, root@),
{
    let relative = match strip_prefix_components(file, root) {
        Some(rc) => rc,
        None => path_components(file),
    };
    let ghost rel = string_views(relative@);
    let text = if relative.len() > 0 && str_equal(relative[0].as_str(), "src") {
        let mut rest: Vec<String> = Vec::new();
        let mut j: usize = 1;
        while j < relative.len()
            invariant
                rel == string_views(relative@),
                1 <= j <= relative@.len(),
                string_views(rest@) == rel.subrange(1, j as int),
            decreases relative@.len() - j,
        {
            let ghost before = rest@;
            let x = relative[j].clone();
            rest.push(x);
            proof {
                lemma_views_push(before, x);
                assert(rel.subrange(1, j + 1) =~= rel.subrange(1, j as int).push(rel[j as int]));
            }
            j = j + 1;
        }
        assert(rel.subrange(1, relative@.len() as int) =~= rel.drop_first());
        components_text(&rest)
    } else {
        components_text(&relative)
    };
    proof {
        reveal_strlit(".rs");
        reveal_strlit("::mod");
    }
    let without_ext = trim_suffix_all_exec(text.as_str(), ".rs");
    let module = replace_char_exec(replace_char_exec(without_ext.as_str(), '/', "::").as_str(), '\\', "::");
    if str_ends_with(module.as_str(), "::mod") {
        let trimmed = trim_suffix_all_exec(module.as_str(), "::mod");
        if !trimmed.as_str().is_empty() {
            return trimmed;
        }
    }
    if module.as_str().is_empty() || str_equal(module.as_str(), "main") || str_equal(module.as_str(), "lib") {
        return String::new();
    }
    module
}


/// The first part of a `::` path.
fn first_segment_of(p: &str) -> (r: String)
    ensures
        r@ == first_segment(p@),
{
    let v = chars_of(p);
    let sep = chars_of("::");
    match find_from(v.as_slice(), sep.as_slice(), 0) {
        Some(i) => {
            proof {
                lemma_first_occurrence(p@, "::"@, 0);
            }
            substring(p, 0, i)
        },
        None => p.to_string(),
    }
}

/// The dependency declared by a line `<prefix>crate::...;`.
fn use_edge_of(mp: &str, line: &str, prefix: &str) -> (r: Vec<(String, String)>)
    requires
        prefix@.len() > 0,
        prefix@.last() == ' ',
    ensures
        edge_views(r@) == use_edge(mp@, line@, prefix@),
{
    let mut r: Vec<(String, String)> = Vec::new();
    if str_starts_with(line, prefix) && str_ends_with(line, ";") {
        let n = chars_of(line).len();
        let pl = chars_of(prefix).len();
        proof {
            reveal_strlit(";");
            assert(line@.subrange(n - 1, n as int) == ";"@);
            assert(line@.subrange(n - 1, n as int)[0] == ';');
            assert(line@.subrange(0, pl as int) == prefix@);
            assert(line@.subrange(0, pl as int)[pl - 1] == ' ');
        }
        let use_path = trim_str(substring(line, pl, n - 1).as_str());
        proof {
            reveal_strlit("crate::");
        }
        if str_starts_with(use_path.as_str(), "crate::") {
            let ul = chars_of(use_path.as_str()).len();
            let rest = substring(use_path.as_str(), 7, ul);
            assert(rest@ =~= use_path@.skip(7));
            let target = first_segment_of(rest.as_str());
            if !target.as_str().is_empty() {
                r.push((mp.to_string(), target));
            }
        }
    }
    assert(edge_views(r@) =~= use_edge(mp@, line@, prefix@));
    r
}

/// The dependencies that one line of module `mp` declares.
pub fn edges_of_line(mp: &str, raw: &str) -> (r: Vec<(String, String)>)
    ensures
        edge_views(r@) == line_edges(mp@, raw@),
{
    let line = trim_str(raw);
    let mut r: Vec<(String, String)> = Vec::new();
    if str_starts_with(line.as_str(), "mod ") && str_ends_with(line.as_str(), ";") {
        let n = chars_of(line.as_str()).len();
        proof {
            reveal_strlit(";");
            reveal_strlit("mod ");
            assert(line@.subrange(n - 1, n as int) == ";"@);
            assert(line@.subrange(n - 1, n as int)[0] == ';');
            assert(line@.subrange(0, 4) == "mod "@);
            assert(line@.subrange(0, 4)[3] == ' ');
        }
        let name = trim_str(substring(line.as_str(), 4, n - 1).as_str());
        if !str_contains(name.as_str(), "{") && !str_contains(name.as_str(), " ") {
            let sub = if mp.is_empty() {
                name
            } else {
                concat(concat(mp, "::").as_str(), name.as_str())
            };
            r.push((mp.to_string(), sub));
        }
    }
    assert(edge_views(r@) =~= mod_edge(mp@, line@));
    proof {
        reveal_strlit("use ");
        reveal_strlit("pub use ");
    }
    let u = use_edge_of(mp, line.as_str(), "use ");
    let p = use_edge_of(mp, line.as_str(), "pub use ");
    let ghost r0 = r@;
    append_edges(&mut r, u);
    append_edges(&mut r, p);
    r
}

/// Appends the edges of `more` to `v`.
fn append_edges(v: &mut Vec<(String, String)>, more: Vec<(String, String)>)
    ensures
        edge_views(final(v)@) == edge_views(old(v)@) + edge_views(more@),
{
    let mut more = more;
    let ghost m = more@;
    v.append(&mut more);
    assert(edge_views(v@) =~= edge_views(old(v)@) + edge_views(m));
}

/// The dependency graph of a crate rooted at `root` whose source files are
/// `files`, each a path and its text: the edges in file and line order, and
/// the modules sorted, each once.
pub fn build_dep_graph(root: &str, files: &Vec<(String, String)>) -> (r: DepGraph)
    ensures
        r@.edges == files_edges(root@, edge_views(files@)),
        strictly_sorted(r@.nodes),
        r@.nodes.to_set() == graph_modules(root@, edge_views(files@)),
{
    let ghost fs = edge_views(files@);
    let mut edges: Vec<(String, String)> = Vec::new();
    let mut mods: Vec<String> = Vec::new();
    let mut i: usize = 0;
    while i < files.len()
        invariant
            fs == edge_views(files@),
            i <= files@.len(),
            edge_views(edges@) == files_edges(root@, fs.take(i as int)),
            string_views(mods@) == fs.take(i as int).map_values(|f: (Seq<char>, Seq<char>)| module_path_spec(f.0, root@)),
        decreases files@.len() - i,
    {
        let (path, content) = (&files[i].0, &files[i].1);
        let mp = file_to_module_path(path.as_str(), root);
        let ls = lines(content.as_str());
        let ghost before = edges@;
        let mut k: usize = 0;
        assert(string_views(ls@).take(0) =~= Seq::<Seq<char>>::empty());
        while k < ls.len()
            invariant
                k <= ls@.len(),
                edge_views(edges@) == edge_views(before) + lines_edges(mp@, string_views(ls@).take(k as int)),
            decreases ls@.len() - k,
        {
            let e = edges_of_line(mp.as_str(), ls[k].as_str());
            append_edges(&mut edges, e);
            assert(string_views(ls@).take(k + 1).drop_last() =~= string_views(ls@).take(k as int));
            assert(edge_views(edges@) =~= edge_views(before) + lines_edges(mp@, string_views(ls@).take(k + 1)));
            k = k + 1;
        }
        assert(string_views(ls@).take(ls@.len() as int) =~= string_views(ls@));
        assert(fs.take(i + 1).drop_last() =~= fs.take(i as int));
        assert(fs.take(i + 1).last() == (path@, content@));
        let ghost mb = mods@;
        mods.push(mp);
        proof {
            lemma_views_push(mb, mp);
            assert(fs.take(i + 1).map_values(|f: (Seq<char>, Seq<char>)| module_path_spec(f.0, root@))
                =~= fs.take(i as int).map_values(|f: (Seq<char>, Seq<char>)| module_path_spec(f.0, root@)).push(mp@));
        }
        i = i + 1;
    }
    assert(fs.take(files@.len() as int) =~= fs);
    let mut j: usize = 0;
    let ghost m0 = mods@;
    while j < edges.len()
        invariant
            j <= edges@.len(),
            string_views(mods@) == string_views(m0) + edge_views(edges@).take(j as int).map_values(|e: (Seq<char>, Seq<char>)| e.1),
        decreases edges@.len() - j,
    {
        let ghost mb = mods@;
        let x = edges[j].1.clone();
        mods.push(x);
        proof {
            lemma_views_push(mb, x);
            assert(edge_views(edges@).take(j + 1).map_values(|e: (Seq<char>, Seq<char>)| e.1)
                =~= edge_views(edges@).take(j as int).map_values(|e: (Seq<char>, Seq<char>)| e.1).push(x@));
        }
        j = j + 1;
    }
    assert(edge_views(edges@).take(edges@.len() as int) =~= edge_views(edges@));
    let nodes = sorted_distinct(&mods);
    proof {
        let a = string_views(m0);
        let b = edge_views(edges@).map_values(|e: (Seq<char>, Seq<char>)| e.1);
        vstd::seq_lib::seq_to_set_distributes_over_add(a, b);
    }
    DepGraph { nodes, edges }
}

/// A dependency on `to` is a dependency on `target`: `to` is `target` or
/// one of its submodules.
pub open spec fn reaches(to: Seq<char>, target: Seq<char>) -> bool {
    to == target || starts_with(to, target + "::"@)
}

/// The modules that depend directly on `target` or one of its submodules.
pub open spec fn reverse_set(edges: Seq<(Seq<char>, Seq<char>)>, target: Seq<char>) -> Set<Seq<char>> {
    Set::new(|m: Seq<char>| exists|k: int| 0 <= k < edges.len() && #[trigger] edges[k].0 == m && reaches(edges[k].1, target))
}

/// The modules that depend directly on `source`.
pub open spec fn forward_set(edges: Seq<(Seq<char>, Seq<char>)>, source: Seq<char>) -> Set<Seq<char>> {
    Set::new(|m: Seq<char>| exists|k: int| 0 <= k < edges.len() && edges[k].1 == source && #[trigger] edges[k].0 == m)
}

/// The modules that depend directly on `target` or on one of its
/// submodules, sorted, each once.
pub fn reverse_dep_slice(graph: &DepGraph, target: &str) -> (r: Vec<String>)
    ensures
        string_views(r@) == sorted_list(reverse_set(graph@.edges, target@)),
        strictly_sorted(string_views(r@)),
        string_views(r@).to_set() == reverse_set(graph@.edges, target@),
{
    let ghost es = graph@.edges;
    let sub = concat(target, "::");
    let mut froms: Vec<String> = Vec::new();
    let mut k: usize = 0;
    while k < graph.edges.len()
        invariant
            es == graph@.edges,
            sub@ == target@ + "::"@,
            k <= graph.edges@.len(),
            forall|m: Seq<char>| string_views(froms@).contains(m) <==>
                exists|j: int| 0 <= j < k && #[trigger] es[j].0 == m && reaches(es[j].1, target@),
        decreases graph.edges@.len() - k,
    {
        let (from, to) = (&graph.edges[k].0, &graph.edges[k].1);
        assert(es[k as int] == (from@, to@));
        let ghost before = froms@;
        if str_equal(to.as_str(), target) || str_starts_with(to.as_str(), sub.as_str()) {
            let x = from.clone();
            froms.push(x);
            proof {
                lemma_views_push(before, x);
                assert(es[k as int].0 == x@ && reaches(es[k as int].1, target@));
                assert forall|m: Seq<char>| string_views(froms@).contains(m) <==>
                    exists|j: int| 0 <= j < k + 1 && #[trigger] es[j].0 == m && reaches(es[j].1, target@) by {
                    let nv = string_views(froms@);
                    let bv = string_views(before);
                    if nv.contains(m) {
                        let i = choose|i: int| 0 <= i < nv.len() && nv[i] == m;
                        if i < bv.len() {
                            assert(bv[i] == m);
                            assert(bv.contains(m));
                            let j = choose|j: int| 0 <= j < k && #[trigger] es[j].0 == m && reaches(es[j].1, target@);
                            assert(0 <= j < k + 1 && es[j].0 == m && reaches(es[j].1, target@));
                        } else {
                            assert(m == x@);
                            assert(0 <= k < k + 1 && es[k as int].0 == m && reaches(es[k as int].1, target@));
                        }
                    }
                    if exists|j: int| 0 <= j < k + 1 && #[trigger] es[j].0 == m && reaches(es[j].1, target@) {
                        let j = choose|j: int| 0 <= j < k + 1 && #[trigger] es[j].0 == m && reaches(es[j].1, target@);
                        if j < k {
                            assert(0 <= j < k && es[j].0 == m && reaches(es[j].1, target@));
                            assert(bv.contains(m));
                            let i = choose|i: int| 0 <= i < bv.len() && bv[i] == m;
                            assert(nv[i] == m);
                        } else {
                            assert(nv[bv.len() as int] == m);
                        }
                    }
                }
            }
        } else {
            proof {
                assert forall|m: Seq<char>| string_views(froms@).contains(m) <==>
                    exists|j: int| 0 <= j < k + 1 && #[trigger] es[j].0 == m && reaches(es[j].1, target@) by {
                    if exists|j: int| 0 <= j < k + 1 && #[trigger] es[j].0 == m && reaches(es[j].1, target@) {
                        let j = choose|j: int| 0 <= j < k + 1 && #[trigger] es[j].0 == m && reaches(es[j].1, target@);
                        assert(j < k);
                    }
                }
            }
        }
        k = k + 1;
    }
    assert(string_views(froms@).to_set() =~= reverse_set(es, target@));
    sorted_distinct(&froms)
}

/// The modules that depend directly on `source`, sorted, each once.
pub fn forward_dep_slice(graph: &DepGraph, source: &str) -> (r: Vec<String>)
    ensures
        string_views(r@) == sorted_list(forward_set(graph@.edges, source@)),
        strictly_sorted(string_views(r@)),
        string_views(r@).to_set() == forward_set(graph@.edges, source@),
{
    let ghost es = graph@.edges;
    let mut froms: Vec<String> = Vec::new();
    let mut k: usize = 0;
    while k < graph.edges.len()
        invariant
            es == graph@.edges,
            k <= graph.edges@.len(),
            forall|m: Seq<char>| string_views(froms@).contains(m) <==>
                exists|j: int| 0 <= j < k && es[j].1 == source@ && #[trigger] es[j].0 == m,
        decreases graph.edges@.len() - k,
    {
        let (from, to) = (&graph.edges[k].0, &graph.edges[k].1);
        assert(es[k as int] == (from@, to@));
        let ghost before = froms@;
        if str_equal(to.as_str(), source) {
            let x = from.clone();
            froms.push(x);
            proof {
                lemma_views_push(before, x);
                assert(es[k as int].1 == source@ && es[k as int].0 == x@);
                assert forall|m: Seq<char>| string_views(froms@).contains(m) <==>
                    exists|j: int| 0 <= j < k + 1 && es[j].1 == source@ && #[trigger] es[j].0 == m by {
                    let nv = string_views(froms@);
                    let bv = string_views(before);
                    if nv.contains(m) {
                        let i = choose|i: int| 0 <= i < nv.len() && nv[i] == m;
                        if i < bv.len() {
                            assert(bv[i] == m);
                            assert(bv.contains(m));
                            let j = choose|j: int| 0 <= j < k && es[j].1 == source@ && #[trigger] es[j].0 == m;
                            assert(0 <= j < k + 1 && es[j].1 == source@ && es[j].0 == m);
                        } else {
                            assert(m == x@);
                            assert(0 <= k < k + 1 && es[k as int].1 == source@ && es[k as int].0 == m);
                        }
                    }
                    if exists|j: int| 0 <= j < k + 1 && es[j].1 == source@ && #[trigger] es[j].0 == m {
                        let j = choose|j: int| 0 <= j < k + 1 && es[j].1 == source@ && #[trigger] es[j].0 == m;
                        if j < k {
                            assert(0 <= j < k && es[j].1 == source@ && es[j].0 == m);
                            assert(bv.contains(m));
                            let i = choose|i: int| 0 <= i < bv.len() && bv[i] == m;
                            assert(nv[i] == m);
                        } else {
                            assert(nv[bv.len() as int] == m);
                        }
                    }
                }
            }
        } else {
            proof {
                assert forall|m: Seq<char>| string_views(froms@).contains(m) <==>
                    exists|j: int| 0 <= j < k + 1 && es[j].1 == source@ && #[trigger] es[j].0 == m by {
                    if exists|j: int| 0 <= j < k + 1 && es[j].1 == source@ && #[trigger] es[j].0 == m {
                        let j = choose|j: int| 0 <= j < k + 1 && es[j].1 == source@ && #[trigger] es[j].0 == m;
                        assert(j < k);
                    }
                }
            }
        }
        k = k + 1;
    }
    assert(string_views(froms@).to_set() =~= forward_set(es, source@));
    sorted_distinct(&froms)
}

/// The dependency chains that extend `path` at its front, taking the
/// candidates `ds` in order: for each `d`, the chain `d` followed by
/// `path`; when `d` is not yet on the path (so the chain closes no cycle)
/// and `fuel` allows, then all chains that extend that one.
pub open spec fn chains_over(
    edges: Seq<(Seq<char>, Seq<char>)>,
    path: Seq<Seq<char>>,
    ds: Seq<Seq<char>>,
    fuel: nat,
) -> Seq<Seq<Seq<char>>>
    decreases fuel, ds.len(),
{
    if ds.len() == 0 {
        Seq::empty()
    } else {
        let rest = chains_over(edges, path, ds.drop_last(), fuel);
        let d = ds.last();
        let np = seq![d] + path;
        if path.contains(d) || fuel == 0 {
            rest + seq![np]
        } else {
            rest + seq![np] + chains_over(edges, np, sorted_list(reverse_set(edges, d)), (fuel - 1) as nat)
        }
    }
}

/// The complete reverse dependency chains that end at `target`: every
/// chain of modules, each depending directly on the next one or on a
/// submodule of it, all distinct but the first, which may close a cycle,
/// found depth first with the dependents of each module in sorted order.
/// Such a chain has at most one module per edge besides its first and the
/// target, so the number of edges bounds the search.
pub open spec fn dep_chains(edges: Seq<(Seq<char>, Seq<char>)>, target: Seq<char>) -> Seq<Seq<Seq<char>>> {
    chains_over(edges, seq![target], sorted_list(reverse_set(edges, target)), edges.len())
}

/// The views of a list of chains.
pub open spec fn chain_views(v: Seq<Vec<String>>) -> Seq<Seq<Seq<char>>> {
    v.map_values(|c: Vec<String>| string_views(c@))
}

/// The views of a list with one more chain.
pub proof fn lemma_chains_push(v: Seq<Vec<String>>, x: Vec<String>)
    ensures
        chain_views(v.push(x)) == chain_views(v).push(string_views(x@)),
{
    assert(chain_views(v.push(x)) =~= chain_views(v).push(string_views(x@)));
}

/// Appends the chains that extend `path`, as `chains_over` gives them.
fn extend_chains(graph: &DepGraph, path: &Vec<String>, fuel: usize, out: &mut Vec<Vec<String>>)
    requires
        path@.len() > 0,
    ensures
        chain_views(final(out)@) == chain_views(old(out)@) + chains_over(
            graph@.edges, string_views(path@), sorted_list(reverse_set(graph@.edges, string_views(path@)[0])),
            fuel as nat),
    decreases fuel,
{
    let ghost es = graph@.edges;
    let ghost pv = string_views(path@);
    let ghost start = chain_views(out@);
    let direct = reverse_dep_slice(graph, path[0].as_str());
    let ghost ds = string_views(direct@);
    let mut i: usize = 0;
    assert(ds.take(0) =~= Seq::<Seq<char>>::empty());
    while i < direct.len()
        invariant
            es == graph@.edges,
            pv == string_views(path@),
            ds == string_views(direct@),
            ds == sorted_list(reverse_set(es, pv[0])),
            i <= direct@.len(),
            chain_views(out@) == start + chains_over(es, pv, ds.take(i as int), fuel as nat),
        decreases direct@.len() - i,
    {
        let d = &direct[i];
        assert(ds.take(i + 1).drop_last() =~= ds.take(i as int));
        assert(ds.take(i + 1).last() == d@);
        let closes = contains_str(path, d.as_str());
        let mut np: Vec<String> = clone_strings(path);
        np.insert(0, d.clone());
        let ghost npv = string_views(np@);
        assert(npv =~= seq![d@] + pv);
        let ghost before = out@;
        let copy = clone_strings(&np);
        out.push(copy);
        proof {
            lemma_chains_push(before, copy);
        }
        if closes || fuel == 0 {
            assert(chain_views(out@) =~= start + chains_over(es, pv, ds.take(i + 1), fuel as nat));
        } else {
            extend_chains(graph, &np, fuel - 1, out);
            assert(npv[0] == d@);
            assert(chain_views(out@) =~= start + chains_over(es, pv, ds.take(i + 1), fuel as nat));
        }
        i = i + 1;
    }
    assert(ds.take(direct@.len() as int) =~= ds);
}

/// The complete reverse dependency chains that end at `target`.
pub fn reverse_dep_chain(graph: &DepGraph, target: &str) -> (r: Vec<Vec<String>>)
    ensures
        chain_views(r@) == dep_chains(graph@.edges, target@),
{
    let mut chains: Vec<Vec<String>> = Vec::new();
    let path = vec![target.to_string()];
    assert(string_views(path@) =~= seq![target@]);
    extend_chains(graph, &path, graph.edges.len(), &mut chains);
    assert(chain_views(chains@) =~= dep_chains(graph@.edges, target@));
    chains
}

/// `c` is a reverse dependency chain to `target`: at least two modules, the
/// last being `target`, each listed by the reverse slice of the next one,
/// all distinct but the first, which may close a cycle by repeating one of
/// the others.
pub open spec fn is_dep_chain(edges: Seq<(Seq<char>, Seq<char>)>, c: Seq<Seq<char>>, target: Seq<char>) -> bool {
    &&& c.len() >= 2
    &&& c.last() == target
    &&& c.drop_first().no_duplicates()
    &&& forall|k: int| 0 <= k < c.len() - 1 ==> #[trigger] sorted_list(reverse_set(edges, c[k + 1])).contains(c[k])
}

/// Every chain found from `path` with the candidates `ds` extends `path`
/// into a reverse dependency chain.
proof fn lemma_chains_over_sound(
    edges: Seq<(Seq<char>, Seq<char>)>,
    path: Seq<Seq<char>>,
    ds: Seq<Seq<char>>,
    fuel: nat,
    target: Seq<char>,
)
    requires
        path.len() >= 1,
        path.last() == target,
        path.no_duplicates(),
        forall|k: int| 0 <= k < path.len() - 1 ==> #[trigger] sorted_list(reverse_set(edges, path[k + 1])).contains(path[k]),
        forall|i: int| 0 <= i < ds.len() ==> sorted_list(reverse_set(edges, path[0])).contains(#[trigger] ds[i]),
    ensures
        forall|i: int| 0 <= i < chains_over(edges, path, ds, fuel).len()
            ==> is_dep_chain(edges, #[trigger] chains_over(edges, path, ds, fuel)[i], target),
    decreases fuel, ds.len(),
{
    if ds.len() > 0 {
        let rest = chains_over(edges, path, ds.drop_last(), fuel);
        let d = ds.last();
        lemma_chains_over_sound(edges, path, ds.drop_last(), fuel, target);
        let np = seq![d] + path;
        assert(sorted_list(reverse_set(edges, path[0])).contains(ds[ds.len() - 1]));
        assert forall|k: int| 0 <= k < np.len() - 1 implies #[trigger] sorted_list(reverse_set(edges, np[k + 1])).contains(np[k]) by {
            if k > 0 {
                assert(np[k] == path[k - 1] && np[k + 1] == path[k]);
                assert(sorted_list(reverse_set(edges, path[(k - 1) + 1])).contains(path[k - 1]));
            } else {
                assert(np[0] == d && np[1] == path[0]);
            }
        }
        assert(np.drop_first() =~= path);
        assert(is_dep_chain(edges, np, target));
        if path.contains(d) || fuel == 0 {
            let all = rest + seq![np];
            assert forall|i: int| 0 <= i < all.len() implies is_dep_chain(edges, #[trigger] all[i], target) by {
                if i < rest.len() {
                    assert(all[i] == rest[i]);
                }
            }
        } else {
            let more = chains_over(edges, np, sorted_list(reverse_set(edges, d)), (fuel - 1) as nat);
            assert(np.no_duplicates()) by {
                assert forall|i: int, j: int| 0 <= i < j < np.len() implies np[i] != np[j] by {
                    if i == 0 {
                        assert(np[j] == path[j - 1]);
                    }
                }
            }
            lemma_chains_over_sound(edges, np, sorted_list(reverse_set(edges, d)), (fuel - 1) as nat, target);
            let all = rest + seq![np] + more;
            assert forall|i: int| 0 <= i < all.len() implies is_dep_chain(edges, #[trigger] all[i], target) by {
                if i < rest.len() {
                    assert(all[i] == rest[i]);
                } else if i == rest.len() {
                    assert(all[i] == np);
                } else {
                    assert(all[i] == more[i - rest.len() - 1]);
                }
            }
        }
    }
}

/// Every chain that `reverse_dep_chain` gives is a reverse dependency
/// chain to the target: each module listed by `reverse_dep_slice` of the
/// next, ending at the target, all distinct but a first one that closes a
/// cycle.
pub proof fn lemma_dep_chains_sound(edges: Seq<(Seq<char>, Seq<char>)>, target: Seq<char>, i: int)
    requires
        0 <= i < dep_chains(edges, target).len(),
    ensures
        is_dep_chain(edges, dep_chains(edges, target)[i], target),
{
    let path = seq![target];
    assert(path.no_duplicates());
    lemma_chains_over_sound(edges, path, sorted_list(reverse_set(edges, target)), edges.len(), target);
}

/// The modules that depend on something: the first modules of the edges.
spec fn dependents(edges: Seq<(Seq<char>, Seq<char>)>) -> Set<Seq<char>> {
    edges.map_values(|e: (Seq<char>, Seq<char>)| e.0).to_set()
}

/// A module listed by the reverse slice of `t` depends on something, and
/// the reverse slice lists exactly the modules of its set.
proof fn lemma_reverse_listed(edges: Seq<(Seq<char>, Seq<char>)>, t: Seq<char>)
    ensures
        reverse_set(edges, t).subset_of(dependents(edges)),
        sorted_list(reverse_set(edges, t)).to_set() == reverse_set(edges, t),
{
    let f = dependents(edges);
    assert forall|m: Seq<char>| reverse_set(edges, t).contains(m) implies f.contains(m) by {
        let k = choose|k: int| 0 <= k < edges.len() && #[trigger] edges[k].0 == m && reaches(edges[k].1, t);
        assert(edges.map_values(|e: (Seq<char>, Seq<char>)| e.0)[k] == m);
    }
    vstd::seq_lib::seq_to_set_is_finite(edges.map_values(|e: (Seq<char>, Seq<char>)| e.0));
    vstd::set_lib::lemma_len_subset(reverse_set(edges, t), f);
    lemma_sorted_list_exists(reverse_set(edges, t));
}

/// A chain `pre + path` whose last new module is among the candidates
/// `ds`, and that needs no more than `fuel` new modules, is found.
proof fn lemma_chains_over_complete(
    edges: Seq<(Seq<char>, Seq<char>)>,
    path: Seq<Seq<char>>,
    ds: Seq<Seq<char>>,
    fuel: nat,
    pre: Seq<Seq<char>>,
)
    requires
        path.len() >= 1,
        path.no_duplicates(),
        1 <= pre.len() <= fuel + 1,
        (pre + path).drop_first().no_duplicates(),
        ds.contains(pre.last()),
        forall|k: int| 0 <= k < pre.len() - 1 ==> #[trigger] sorted_list(reverse_set(edges, pre[k + 1])).contains(pre[k]),
    ensures
        chains_over(edges, path, ds, fuel).contains(pre + path),
    decreases fuel, ds.len(),
{
    let c = pre + path;
    let rest = chains_over(edges, path, ds.drop_last(), fuel);
    let d = ds.last();
    let result = chains_over(edges, path, ds, fuel);
    if pre.last() == d {
        let np = seq![d] + path;
        if pre.len() == 1 {
            assert(c =~= np);
            assert(result[rest.len() as int] == np);
        } else {
            assert(!path.contains(d)) by {
                if path.contains(d) {
                    let j = choose|j: int| 0 <= j < path.len() && path[j] == d;
                    assert(c.drop_first()[pre.len() - 2] == d && c.drop_first()[pre.len() - 1 + j] == d);
                }
            }
            let more = chains_over(edges, np, sorted_list(reverse_set(edges, d)), (fuel - 1) as nat);
            assert(result == rest + seq![np] + more);
            assert(np.no_duplicates()) by {
                assert forall|i: int, j: int| 0 <= i < j < np.len() implies np[i] != np[j] by {
                    if i == 0 {
                        assert(np[j] == path[j - 1]);
                    } else {
                        assert(np[i] == path[i - 1] && np[j] == path[j - 1]);
                    }
                }
            }
            let pre2 = pre.drop_last();
            assert((pre2 + np).drop_first() =~= c.drop_first());
            assert(c =~= pre2 + np);
            assert(pre[pre.len() - 1] == d);
            assert(sorted_list(reverse_set(edges, pre[(pre.len() - 2) + 1])).contains(pre[pre.len() - 2]));
            assert(sorted_list(reverse_set(edges, d)).contains(pre2.last()));
            assert forall|k: int| 0 <= k < pre2.len() - 1 implies #[trigger] sorted_list(reverse_set(edges, pre2[k + 1])).contains(pre2[k]) by {
                assert(sorted_list(reverse_set(edges, pre[k + 1])).contains(pre[k]));
            }
            lemma_chains_over_complete(edges, np, sorted_list(reverse_set(edges, d)), (fuel - 1) as nat, pre2);
            let j = choose|j: int| 0 <= j < more.len() && more[j] == c;
            assert(result[rest.len() + 1 + j] == c);
        }
    } else {
        assert(ds.drop_last().contains(pre.last())) by {
            let j = choose|j: int| 0 <= j < ds.len() && ds[j] == pre.last();
            assert(j < ds.len() - 1);
            assert(ds.drop_last()[j] == pre.last());
        }
        lemma_chains_over_complete(edges, path, ds.drop_last(), fuel, pre);
        let j = choose|j: int| 0 <= j < rest.len() && rest[j] == c;
        let np = seq![d] + path;
        if !path.contains(d) && fuel > 0 {
            let more = chains_over(edges, np, sorted_list(reverse_set(edges, d)), (fuel - 1) as nat);
            assert(result == rest + seq![np] + more);
            assert(result[j] == c);
        } else {
            assert(result == rest + seq![np]);
            assert(result[j] == c);
        }
    }
}

/// Every reverse dependency chain to the target (`is_dep_chain`: each
/// module listed by `reverse_dep_slice` of the next, all distinct but a
/// first one that closes a cycle) is among the chains that
/// `reverse_dep_chain` gives.
pub proof fn lemma_dep_chains_complete(edges: Seq<(Seq<char>, Seq<char>)>, target: Seq<char>, c: Seq<Seq<char>>)
    requires
        is_dep_chain(edges, c, target),
    ensures
        dep_chains(edges, target).contains(c),
{
    let pre = c.drop_last();
    assert(c =~= pre + seq![target]);
    let f = dependents(edges);
    let mid = pre.drop_first();
    assert forall|m: Seq<char>| mid.to_set().contains(m) implies f.contains(m) by {
        let k = choose|k: int| 0 <= k < mid.len() && mid[k] == m;
        assert(mid[k] == c[k + 1]);
        assert(sorted_list(reverse_set(edges, c[(k + 1) + 1])).contains(c[k + 1]));
        lemma_reverse_listed(edges, c[k + 2]);
        assert(sorted_list(reverse_set(edges, c[k + 2])).to_set().contains(m));
    }
    assert(mid.no_duplicates()) by {
        assert forall|i: int, j: int| 0 <= i < j < mid.len() implies mid[i] != mid[j] by {
            assert(mid[i] == c.drop_first()[i] && mid[j] == c.drop_first()[j]);
        }
    }
    mid.unique_seq_to_set();
    let es = edges.map_values(|e: (Seq<char>, Seq<char>)| e.0);
    vstd::seq_lib::seq_to_set_is_finite(es);
    es.lemma_cardinality_of_set();
    vstd::set_lib::lemma_len_subset(mid.to_set(), f);
    assert(pre.len() <= edges.len() + 1);
    assert((pre + seq![target]).drop_first() =~= c.drop_first());
    assert(seq![target].no_duplicates());
    let n = c.len();
    assert(sorted_list(reverse_set(edges, c[(n - 2) + 1])).contains(c[n - 2]));
    assert forall|k: int| 0 <= k < pre.len() - 1 implies #[trigger] sorted_list(reverse_set(edges, pre[k + 1])).contains(pre[k]) by {
        assert(sorted_list(reverse_set(edges, c[k + 1])).contains(c[k]));
    }
    lemma_chains_over_complete(edges, seq![target], sorted_list(reverse_set(edges, target)), edges.len(), pre);
}

/// The forward slice of a module lies within its reverse slice: a module
/// that depends directly on `a` depends on `a` or one of its submodules.
pub proof fn lemma_forward_reverse(edges: Seq<(Seq<char>, Seq<char>)>, a: Seq<char>, b: Seq<char>)
    requires
        forward_set(edges, a).contains(b),
    ensures
        reverse_set(edges, a).contains(b),
{
    let k = choose|k: int| 0 <= k < edges.len() && edges[k].1 == a && #[trigger] edges[k].0 == b;
    assert(reaches(edges[k].1, a));
}

/// A module in the reverse slice of `b` is in the forward slice of `b`
/// itself or of a submodule of `b`.
pub proof fn lemma_reverse_forward(edges: Seq<(Seq<char>, Seq<char>)>, a: Seq<char>, b: Seq<char>)
    requires
        reverse_set(edges, b).contains(a),
    ensures
        exists|t: Seq<char>| #[trigger] forward_set(edges, t).contains(a) && reaches(t, b),
{
    let k = choose|k: int| 0 <= k < edges.len() && #[trigger] edges[k].0 == a && reaches(edges[k].1, b);
    assert(forward_set(edges, edges[k].1).contains(a));
}

/// Every dependency that the lines of module `mp` declare starts at `mp`.
proof fn lemma_lines_edges_from(mp: Seq<char>, ls: Seq<Seq<char>>)
    ensures
        forall|k: int| 0 <= k < lines_edges(mp, ls).len() ==> (#[trigger] lines_edges(mp, ls)[k]).0 == mp,
    decreases ls.len(),
{
    if ls.len() > 0 {
        lemma_lines_edges_from(mp, ls.drop_last());
        let a = lines_edges(mp, ls.drop_last());
        let b = line_edges(mp, ls.last());
        assert forall|k: int| 0 <= k < lines_edges(mp, ls).len() implies (#[trigger] lines_edges(mp, ls)[k]).0 == mp by {
            if k >= a.len() {
                assert(lines_edges(mp, ls)[k] == b[k - a.len()]);
            } else {
                assert(lines_edges(mp, ls)[k] == a[k]);
            }
        }
    }
}

/// Every dependency that the files declare starts at the module of one of
/// the files.
proof fn lemma_files_edges_from(root: Seq<char>, files: Seq<(Seq<char>, Seq<char>)>, k: int)
    requires
        0 <= k < files_edges(root, files).len(),
    ensures
        files.map_values(|f: (Seq<char>, Seq<char>)| module_path_spec(f.0, root)).contains(files_edges(root, files)[k].0),
    decreases files.len(),
{
    let init = files.drop_last();
    let a = files_edges(root, init);
    let mp = module_path_spec(files.last().0, root);
    let mods = files.map_values(|f: (Seq<char>, Seq<char>)| module_path_spec(f.0, root));
    if k < a.len() {
        lemma_files_edges_from(root, init, k);
        let im = init.map_values(|f: (Seq<char>, Seq<char>)| module_path_spec(f.0, root));
        let j = choose|j: int| 0 <= j < im.len() && im[j] == a[k].0;
        assert(mods[j] == im[j]);
        assert(files_edges(root, files)[k] == a[k]);
    } else {
        lemma_lines_edges_from(mp, lines_of(files.last().1));
        assert(files_edges(root, files)[k] == lines_edges(mp, lines_of(files.last().1))[k - a.len()]);
        assert(mods[files.len() - 1] == mp);
    }
}

/// Every dependency of a graph joins two of its modules: the module of the
/// file that declares it, and its target.
pub proof fn lemma_dep_graph_closed(root: Seq<char>, files: Seq<(Seq<char>, Seq<char>)>, k: int)
    requires
        0 <= k < files_edges(root, files).len(),
    ensures
        graph_modules(root, files).contains(files_edges(root, files)[k].0),
        graph_modules(root, files).contains(files_edges(root, files)[k].1),
{
    lemma_files_edges_from(root, files, k);
    let targets = files_edges(root, files).map_values(|e: (Seq<char>, Seq<char>)| e.1);
    assert(targets[k] == files_edges(root, files)[k].1);
    assert(targets.contains(files_edges(root, files)[k].1));
}

} // verus!
