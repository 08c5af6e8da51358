//! Finding the part of a function that can be extracted around a line.
use vstd::prelude::*;
use vstd::utf8::{encode_utf8, encode_scalar};
use crate::syntax::{SyntaxTree, opt_int, ints};
use crate::text::{chars_of, lemma_encode_concat, utf8_width, str_equal};
use crate::lang::backend::{syntax_tree_from, models};

verus! {

/// A piece of code that can be extracted into a function of its own.
pub struct ExtractCandidate {
    pub start_line: usize,
    pub end_line: usize,
    pub code: String,
}

/// The kinds of node at which the search for an extractable piece stops.
pub open spec fn safe_boundary_kind(k: Seq<char>) -> bool {
    ||| k == "block"@
    ||| k == "function_item"@
    ||| k == "for_expression"@
    ||| k == "if_expression"@
    ||| k == "while_expression"@
    ||| k == "loop_expression"@
    ||| k == "match_expression"@
    ||| k == "expression_statement"@
    ||| k == "source_file"@
}

/// Whether a node of kind `k` bounds an extraction.
pub fn is_safe_boundary(k: &str) -> (r: bool)
    ensures
        r == safe_boundary_kind(k@),
{
    str_equal(k, "block") || str_equal(k, "function_item") || str_equal(k, "for_expression")
        || str_equal(k, "if_expression") || str_equal(k, "while_expression")
        || str_equal(k, "loop_expression") || str_equal(k, "match_expression")
        || str_equal(k, "expression_statement") || str_equal(k, "source_file")
}

/// The node reached from `k` by climbing to the parent as long as there is
/// one and it is not a boundary.
pub open spec fn extract_root(t: SyntaxTree, k: int) -> int
    decreases k,
{
    match t.node(k).parent {
        Some(p) => if 0 <= p < k && !safe_boundary_kind(t.kind(p as int)) {
            extract_root(t, p as int)
        } else {
            k
        },
        None => k,
    }
}

/// The candidate that node `k` gives: the lines and text of its extract
/// root, when that text is known.
pub open spec fn candidate_at(t: SyntaxTree, k: int) -> Option<(int, int, Seq<char>)> {
    let e = extract_root(t, k);
    match t.text(e) {
        Some(code) => Some((t.line(e), t.end_line(e), code)),
        None => None,
    }
}

/// The view of an optional candidate: its lines and its code.
pub open spec fn candidate_view(c: Option<ExtractCandidate>) -> Option<(int, int, Seq<char>)> {
    match c {
        Some(c) => Some((c.start_line as int, c.end_line as int, c.code@)),
        None => None,
    }
}

/// The extractable piece around node `k`: climbing from `k` while the
/// parent is not a boundary, the piece is the node reached, with its lines
/// and its source text. `None` when that text is not known.
pub fn extract_candidate(t: &SyntaxTree, k: usize) -> (r: Option<ExtractCandidate>)
    requires
        t.wf(),
        k < t.len(),
    ensures
        candidate_view(r) == candidate_at(*t, k as int),
{
    let mut e = k;
    loop
        invariant
            t.wf(),
            e <= k < t.len(),
            extract_root(*t, e as int) == extract_root(*t, k as int),
        ensures
            e < t.len(),
            extract_root(*t, e as int) == e,
            extract_root(*t, e as int) == extract_root(*t, k as int),
        decreases e,
    {
        assert(t.node_ok(e as int));
        match t.nodes[e].parent {
            Some(p) => {
                if is_safe_boundary(t.nodes[p].kind.as_str()) {
                    break;
                }
                e = p;
            },
            None => {
                break;
            },
        }
    }
    assert(t.node_ok(e as int));
    let n = &t.nodes[e];
    match &n.text {
        Some(code) => Some(ExtractCandidate {
            start_line: n.start_row + 1,
            end_line: n.end_row + 1,
            code: code.clone(),
        }),
        None => None,
    }
}

/// Node `c` reaches the byte range from `s` to `e`, as tree-sitter's
/// descent asks of a child: it ends at or after `e`, and after `s` (or at
/// `s`, when it is empty).
pub open spec fn reaches_range(t: SyntaxTree, c: int, s: int, e: int) -> bool {
    let n = t.nodes@[c];
    &&& n.end_byte >= e
    &&& if n.start_byte == n.end_byte { n.end_byte >= s } else { n.end_byte > s }
}

/// The first of the nodes `cs` that reaches the byte range.
pub open spec fn first_reaching(t: SyntaxTree, cs: Seq<int>, s: int, e: int) -> Option<int>
    decreases cs.len(),
{
    if cs.len() == 0 {
        None
    } else if reaches_range(t, cs[0], s, e) {
        Some(cs[0])
    } else {
        first_reaching(t, cs.drop_first(), s, e)
    }
}

/// The node for the byte range from `s` to `e` below node `x`, by the
/// descent of tree-sitter's `Node::descendant_for_byte_range` (including
/// anonymous nodes): the first child that reaches the range is entered when
/// it starts at or before `s`; otherwise the search stops at the node it is
/// in.
pub open spec fn descend(t: SyntaxTree, x: int, s: int, e: int) -> int
    decreases t.len() - x,
{
    if 0 <= x < t.len() {
        match first_reaching(t, t.children(x), s, e) {
            Some(c) => if x < c < t.len() && t.nodes@[c].start_byte <= s {
                descend(t, c, s, e)
            } else {
                x
            },
            None => x,
        }
    } else {
        x
    }
}

/// The first child of `x` that reaches the byte range from `s` to `e`.
fn first_reaching_child(t: &SyntaxTree, x: usize, s: usize, e: usize) -> (r: Option<usize>)
    requires
        t.wf(),
        x < t.len(),
    ensures
        opt_int(r) == first_reaching(*t, t.children(x as int), s as int, e as int),
        r matches Some(c) ==> x < c < t.len(),
{
    let cs = t.children_of(x);
    let ghost all = ints(cs@);
    let mut i: usize = 0;
    assert(all.skip(0) =~= all);
    while i < cs.len()
        invariant
            all == ints(cs@),
            all == t.children(x as int),
            i <= cs@.len(),
            forall|m: int| 0 <= m < cs@.len() ==> x < #[trigger] cs@[m] < t.len(),
            first_reaching(*t, all, s as int, e as int) == first_reaching(*t, all.skip(i as int), s as int, e as int),
        decreases cs@.len() - i,
    {
        let c = cs[i];
        assert(all.skip(i as int)[0] == c as int);
        assert(all.skip(i as int).drop_first() =~= all.skip(i + 1));
        let n = &t.nodes[c];
        let ends_ok = n.end_byte >= e && if n.start_byte == n.end_byte { n.end_byte >= s } else { n.end_byte > s };
        if ends_ok {
            return Some(c);
        }
        i = i + 1;
    }
    assert(all.skip(i as int) =~= Seq::<int>::empty());
    None
}

/// The node that tree-sitter's descent finds for the byte range from `s`
/// to `e`, starting at the root.
pub fn descend_from_root(t: &SyntaxTree, s: usize, e: usize) -> (r: usize)
    requires
        t.wf(),
    ensures
        r as int == descend(*t, 0, s as int, e as int),
        r < t.len(),
{
    let mut x: usize = 0;
    loop
        invariant
            t.wf(),
            x < t.len(),
            descend(*t, 0, s as int, e as int) == descend(*t, x as int, s as int, e as int),
        decreases t.len() - x,
    {
        match first_reaching_child(t, x, s, e) {
            Some(c) => {
                if t.nodes[c].start_byte <= s {
                    x = c;
                } else {
                    return x;
                }
            },
            None => {
                return x;
            },
        }
    }
}

/// The smallest complete piece of code around line `line` (one-based) of
/// `source` that can be extracted: the node that tree-sitter's
/// `descendant_for_byte_range` finds at the start of the line, widened
/// while its parent is not a block, a function, a loop, a branch or a
/// statement.
pub fn find_extract_boundary(source: &str, tree: &tree_sitter::Tree, line: usize) -> (r: Option<ExtractCandidate>)
    ensures
        exists|t: SyntaxTree, b: int|
            #![trigger candidate_at(t, descend(t, 0, b, b))]
            models(t, *tree, source@) && line_byte(source@, line as int, b)
                && candidate_view(r) == candidate_at(t, descend(t, 0, b, b)),
{
    let byte = byte_for_line(source, line);
    let model = match syntax_tree_from(tree, source) {
        Some(m) => m,
        None => {
            return None;
        },
    };
    let k = descend_from_root(&model, byte, byte);
    let r = extract_candidate(&model, k);
    assert(candidate_view(r) == candidate_at(model, descend(model, 0, byte as int, byte as int)));
    r
}

/// The number of newline characters in `s`.
pub open spec fn newline_count(s: Seq<char>) -> nat
    decreases s.len(),
{
    if s.len() == 0 {
        0
    } else {
        newline_count(s.drop_last()) + if s.last() == '\n' { 1nat } else { 0nat }
    }
}

/// `k` is the character index where line `line` (one-based) of `s` starts:
/// the first index before which there are `line - 1` newlines.
pub open spec fn starts_line(s: Seq<char>, line: int, k: int) -> bool {
    &&& 0 <= k <= s.len()
    &&& newline_count(s.take(k)) + 1 >= line
    &&& forall|j: int| 0 <= j < k ==> newline_count(s.take(j)) + 1 < line
}

/// `b` is the byte offset at which line `line` (one-based) of `s` starts,
/// or the length of `s` in bytes when it has fewer lines.
pub open spec fn line_byte(s: Seq<char>, line: int, b: int) -> bool {
    ||| exists|k: int| starts_line(s, line, k) && b == encode_utf8(s.take(k)).len()
    ||| (forall|k: int| 0 <= k <= s.len() ==> newline_count(s.take(k)) + 1 < line) && b == encode_utf8(s).len()
}

/// The byte offset at which line `line` (one-based) of `source` starts, or
/// the length of `source` in bytes when it has fewer lines.
pub fn byte_for_line(source: &str, line: usize) -> (r: usize)
    ensures
        line_byte(source@, line as int, r as int),
{
    let v = chars_of(source);
    let total = source.as_bytes().len();
    assert(total == encode_utf8(source@).len());
    let mut byte: usize = 0;
    let mut current: usize = 1;
    let mut i: usize = 0;
    assert(source@.take(0) =~= Seq::<char>::empty());
    while i < v.len()
        invariant
            i <= v@.len(),
            v@ == source@,
            byte == encode_utf8(source@.take(i as int)).len(),
            current == newline_count(source@.take(i as int)) + 1,
            current <= i + 1,
            forall|j: int| 0 <= j < i ==> newline_count(source@.take(j)) + 1 < line,
            total == encode_utf8(source@).len(),
        decreases v@.len() - i,
    {
        if current >= line {
            assert(starts_line(source@, line as int, i as int));
            return byte;
        }
        let ch = v[i];
        proof {
            lemma_encode_concat(source@.take(i as int), seq![ch]);
            assert(source@.take(i + 1) =~= source@.take(i as int) + seq![ch]);
            assert(source@.take(i + 1).drop_last() =~= source@.take(i as int));
            assert(encode_utf8(seq![ch]) == encode_scalar(ch as u32)) by {
                assert(seq![ch].drop_first() =~= Seq::<char>::empty());
                assert(seq![ch][0] == ch);
                assert(encode_utf8(Seq::<char>::empty()) =~= Seq::<u8>::empty());
                assert(encode_scalar(ch as u32) + Seq::<u8>::empty() =~= encode_scalar(ch as u32));
            }
            assert(encode_utf8(source@.take(i + 1)).len() <= encode_utf8(source@).len()) by {
                lemma_encode_concat(source@.take(i + 1), source@.skip(i + 1));
                assert(source@.take(i + 1) + source@.skip(i + 1) =~= source@);
            }
        }
        let w = utf8_width(ch);
        byte = byte + w;
        if ch == '\n' {
            current = current + 1;
        }
        i = i + 1;
    }
    assert(source@.take(v@.len() as int) =~= source@);
    if current >= line {
        assert(starts_line(source@, line as int, i as int));
    }
    total
}

} // verus!
