//! The bridge to tree-sitter: its types as Verus sees them, one unverified
//! function for each call into it, and the verified conversion of a
//! tree-sitter tree into a [`SyntaxTree`].
use vstd::prelude::*;
use vstd::utf8::{decode_utf8, valid_utf8};
use crate::syntax::{SyntaxNode, SyntaxTree, text_of_range, opt_view, opt_int};

verus! {

broadcast use vstd::string::group_string_axioms;

#[verifier::external_type_specification]
#[verifier::external_body]
pub struct ExParser(tree_sitter::Parser);

#[verifier::external_type_specification]
#[verifier::external_body]
pub struct ExTree(tree_sitter::Tree);

#[verifier::external_type_specification]
#[verifier::external_body]
pub struct ExLanguage(tree_sitter::Language);

#[verifier::external_type_specification]
#[verifier::external_body]
pub struct ExLanguageError(tree_sitter::LanguageError);

/// `tree_sitter::Parser::new`: a parser with no language set. Nothing is
/// claimed of the value.
#[verifier::external_body]
pub(crate) fn new_parser() -> tree_sitter::Parser {
    tree_sitter::Parser::new()
}

/// The grammars the library parses with.
#[derive(Clone, Copy, Debug, PartialEq, Eq, Structural)]
pub enum Grammar {
    Rust,
    Go,
    TypeScript,
    Tsx,
    Dart,
}

/// `tree_sitter::Parser::set_language` with grammar `g`, the grammar
/// crate's `LANGUAGE` constant converted with `From`. tree-sitter refuses a
/// grammar only when its ABI version lies outside 13 to 15
/// (`MIN_COMPATIBLE_LANGUAGE_VERSION` to `LANGUAGE_VERSION`); the bundled
/// grammars are generated with 14 (Rust, Go, TypeScript, TSX) and 15
/// (Dart), so the call succeeds.
#[verifier::external_body]
pub(crate) fn set_grammar(parser: &mut tree_sitter::Parser, g: Grammar) -> (r: Result<(), tree_sitter::LanguageError>)
    ensures
        r is Ok,
{
    let language: tree_sitter::Language = match g {
        Grammar::Rust => tree_sitter_rust::LANGUAGE.into(),
        Grammar::Go => tree_sitter_go::LANGUAGE.into(),
        Grammar::TypeScript => tree_sitter_typescript::LANGUAGE_TYPESCRIPT.into(),
        Grammar::Tsx => tree_sitter_typescript::LANGUAGE_TSX.into(),
        Grammar::Dart => tree_sitter_dart::LANGUAGE.into(),
    };
    parser.set_language(&language)
}

/// The `Display` text of a `tree_sitter::LanguageError`; its wording is
/// not claimed.
#[verifier::external_body]
pub(crate) fn language_error_text(e: &tree_sitter::LanguageError) -> String {
    e.to_string()
}

/// The nodes of the tree that tree-sitter's parser builds for `source`
/// with grammar `g`.
pub uninterp spec fn parse_nodes(g: Grammar, source: Seq<char>) -> Seq<TsNode>;

/// `tree_sitter::Parser::parse` of the UTF-8 text `source`, with no previous
/// tree, the parser's language being first set to grammar `g` (as in
/// `set_grammar`). tree-sitter returns no tree only when no language is
/// set, when a timeout, cancellation flag or progress callback stops it, or
/// when the external scanner of a WebAssembly grammar fails; the language
/// is set here, the bundled grammars are native, and the library sets no
/// timeout, flag or callback on its parsers, so a tree comes back: the one
/// whose nodes `parse_nodes` names.
#[verifier::external_body]
pub(crate) fn parse_text(parser: &mut tree_sitter::Parser, g: Grammar, source: &str) -> (r: Option<tree_sitter::Tree>)
    ensures
        r is Some,
        r matches Some(t) ==> tree_nodes(t) == parse_nodes(g, source@),
{
    let language: tree_sitter::Language = match g {
        Grammar::Rust => tree_sitter_rust::LANGUAGE.into(),
        Grammar::Go => tree_sitter_go::LANGUAGE.into(),
        Grammar::TypeScript => tree_sitter_typescript::LANGUAGE_TYPESCRIPT.into(),
        Grammar::Tsx => tree_sitter_typescript::LANGUAGE_TSX.into(),
        Grammar::Dart => tree_sitter_dart::LANGUAGE.into(),
    };
    parser.set_language(&language).ok()?;
    parser.parse(source, None)
}

/// A node of a tree-sitter tree as plain values: its kind, whether it is
/// named, the field under which it hangs, its depth below the root, and
/// its start and end positions and bytes.
pub struct TsNode {
    pub kind: Seq<char>,
    pub named: bool,
    pub field: Option<Seq<char>>,
    pub depth: int,
    pub start_row: int,
    pub start_col: int,
    pub end_row: int,
    pub end_col: int,
    pub start_byte: int,
    pub end_byte: int,
}

/// The nodes of a tree-sitter tree, in pre-order from the root.
pub uninterp spec fn tree_nodes(tree: tree_sitter::Tree) -> Seq<TsNode>;

/// The number of nodes of a tree (`tree.root_node().descendant_count()`),
/// which counts the root itself. tree-sitter keeps it as a 32-bit number:
/// below `usize::MAX - 1` on a 64-bit target, and on a 32-bit one a tree
/// with that many nodes could not be held in memory.
#[verifier::external_body]
pub(crate) fn tree_node_count(tree: &tree_sitter::Tree) -> (r: usize)
    ensures
        r == tree_nodes(*tree).len(),
        1 <= r < usize::MAX - 1,
{
    tree.root_node().descendant_count()
}

/// Node `i` in pre-order, read with a cursor on the root moved to
/// descendant `i` (`TreeCursor::goto_descendant`): its kind, whether it is
/// named, its field name and its depth below the root. The descendants are
/// numbered in pre-order, so the root is at depth 0 and every other node is
/// at most one level below the node before it.
#[verifier::external_body]
pub(crate) fn tree_node_label(tree: &tree_sitter::Tree, i: usize) -> (r: (String, bool, Option<String>, usize))
    requires
        i < tree_nodes(*tree).len(),
    ensures
        r.0@ == tree_nodes(*tree)[i as int].kind,
        r.1 == tree_nodes(*tree)[i as int].named,
        opt_view(r.2) == tree_nodes(*tree)[i as int].field,
        r.3 == tree_nodes(*tree)[i as int].depth,
        i == 0 ==> r.3 == 0,
        i > 0 ==> 1 <= r.3 <= tree_nodes(*tree)[i - 1].depth + 1,
{
    let mut c = tree.root_node().walk();
    c.goto_descendant(i);
    let field = match c.field_name() {
        Some(f) => Some(f.to_string()),
        None => None,
    };
    (c.node().kind().to_string(), c.node().is_named(), field, c.depth() as usize)
}

/// Node `i` in pre-order: its start row and column, end row and column,
/// and start and end bytes (`Node::start_position`, `end_position`,
/// `start_byte`, `end_byte`). A node never ends on a row before the one it
/// starts on, and tree-sitter keeps rows and columns as 32-bit numbers
/// (below `usize::MAX` on a 64-bit target; on a 32-bit one a source that
/// long could not be held in memory).
#[verifier::external_body]
pub(crate) fn tree_node_span(tree: &tree_sitter::Tree, i: usize) -> (r: (usize, usize, usize, usize, usize, usize))
    requires
        i < tree_nodes(*tree).len(),
    ensures
        r.0 == tree_nodes(*tree)[i as int].start_row,
        r.1 == tree_nodes(*tree)[i as int].start_col,
        r.2 == tree_nodes(*tree)[i as int].end_row,
        r.3 == tree_nodes(*tree)[i as int].end_col,
        r.4 == tree_nodes(*tree)[i as int].start_byte,
        r.5 == tree_nodes(*tree)[i as int].end_byte,
        r.0 <= r.2 < usize::MAX,
        r.1 < usize::MAX,
{
    let mut c = tree.root_node().walk();
    c.goto_descendant(i);
    let n = c.node();
    let (s, e) = (n.start_position(), n.end_position());
    (s.row, s.column, e.row, e.column, n.start_byte(), n.end_byte())
}

/// Sub-slicing a byte slice (`&b[start..end]`), which std documents to
/// hold exactly the bytes at those positions.
#[verifier::external_body]
pub(crate) fn byte_range(b: &[u8], start: usize, end: usize) -> (r: &[u8])
    requires
        start <= end <= b@.len(),
    ensures
        r@ == b@.subrange(start as int, end as int),
{
    &b[start..end]
}

/// `std::str::from_utf8`: succeeds exactly on valid UTF-8 and then holds
/// the decoded characters.
#[verifier::external_body]
pub(crate) fn decode_utf8_bytes(b: &[u8]) -> (r: Option<&str>)
    ensures
        r is Some <==> valid_utf8(b@),
        r matches Some(s) ==> s@ == decode_utf8(b@),
{
    std::str::from_utf8(b).ok()
}

/// The text of `source` between two byte offsets, when the range is in
/// the source and decodes as UTF-8.
pub fn text_between(source: &str, start: usize, end: usize) -> (r: Option<String>)
    ensures
        opt_view(r) == text_of_range(source@, start as int, end as int),
{
    let bytes = source.as_bytes();
    if start <= end && end <= bytes.len() {
        let sub = byte_range(bytes, start, end);
        match decode_utf8_bytes(sub) {
            Some(t) => Some(t.to_string()),
            None => None,
        }
    } else {
        None
    }
}

/// A copy of `n` with the subtree end `end`.
fn with_end(n: &SyntaxNode, end: usize) -> (r: SyntaxNode)
    ensures
        r == (SyntaxNode { end, ..*n }),
{
    SyntaxNode {
        kind: n.kind.clone(),
        named: n.named,
        field: match &n.field {
            Some(f) => Some(f.clone()),
            None => None,
        },
        start_row: n.start_row,
        start_col: n.start_col,
        end_row: n.end_row,
        end_col: n.end_col,
        start_byte: n.start_byte,
        end_byte: n.end_byte,
        text: match &n.text {
            Some(t) => Some(t.clone()),
            None => None,
        },
        parent: n.parent,
        end,
    }
}

/// The last node before `i` whose depth is `d`.
pub open spec fn last_at_depth(ns: Seq<TsNode>, i: int, d: int) -> Option<int>
    decreases i,
{
    if i <= 0 {
        None
    } else if ns[i - 1].depth == d {
        Some(i - 1)
    } else {
        last_at_depth(ns, i - 1, d)
    }
}

/// The first node from `k` on that is not deeper than node `j`, or the
/// number of nodes: one past the end of `j`'s subtree when `k` follows `j`.
pub open spec fn end_from(ns: Seq<TsNode>, j: int, k: int) -> int
    decreases ns.len() - k,
{
    if k >= ns.len() {
        ns.len() as int
    } else if ns[k].depth <= ns[j].depth {
        k
    } else {
        end_from(ns, j, k + 1)
    }
}

/// The parent of node `i`: the last node before it one level up.
pub open spec fn parent_at(ns: Seq<TsNode>, i: int) -> Option<int> {
    if ns[i].depth == 0 {
        None
    } else {
        last_at_depth(ns, i, ns[i].depth - 1)
    }
}

/// Node `i` fits a pre-order listing: the root at depth 0, every other
/// node at most one level below the node before it and below the root, and
/// its positions in range.
pub open spec fn node_shaped(ns: Seq<TsNode>, i: int) -> bool {
    let n = ns[i];
    &&& n.start_row < usize::MAX
    &&& n.end_row < usize::MAX
    &&& n.start_col < usize::MAX
    &&& n.start_row <= n.end_row
    &&& if i == 0 { n.depth == 0 } else { 1 <= n.depth <= ns[i - 1].depth + 1 }
}

/// The nodes form a tree in pre-order that the conversion can hold.
pub open spec fn tree_shaped(ns: Seq<TsNode>) -> bool {
    &&& 0 < ns.len() < usize::MAX - 1
    &&& forall|i: int| 0 <= i < ns.len() ==> #[trigger] node_shaped(ns, i)
}

/// Node `i` of `t` is node `i` of `ns` over `source`: the same kind,
/// field, positions and bytes, the text its bytes cover, and the parent
/// and subtree end that the depths give.
pub open spec fn node_from(t: SyntaxTree, ns: Seq<TsNode>, source: Seq<char>, i: int) -> bool {
    let n = t.nodes@[i];
    let m = ns[i];
    &&& n.kind@ == m.kind
    &&& n.named == m.named
    &&& opt_view(n.field) == m.field
    &&& n.start_row == m.start_row
    &&& n.start_col == m.start_col
    &&& n.end_row == m.end_row
    &&& n.end_col == m.end_col
    &&& n.start_byte == m.start_byte
    &&& n.end_byte == m.end_byte
    &&& opt_view(n.text) == text_of_range(source, m.start_byte, m.end_byte)
    &&& opt_int(n.parent) == parent_at(ns, i)
    &&& n.end == end_from(ns, i, i + 1)
}

/// `t` is the tree that the nodes `ns` of a tree-sitter tree of `source`
/// describe.
pub open spec fn tree_from(t: SyntaxTree, ns: Seq<TsNode>, source: Seq<char>) -> bool {
    &&& t.nodes@.len() == ns.len()
    &&& forall|i: int| 0 <= i < ns.len() ==> #[trigger] node_from(t, ns, source, i)
}

/// A node with no shallower node between it and `i`, where `i` is not
/// deeper, ends its subtree at `i`.
proof fn lemma_end_at(ns: Seq<TsNode>, j: int, k: int, i: int)
    requires
        0 <= j < k <= i < ns.len(),
        forall|m: int| k <= m < i ==> ns[m].depth > ns[j].depth,
        ns[i].depth <= ns[j].depth,
    ensures
        end_from(ns, j, k) == i,
    decreases i - k,
{
    if k < i {
        lemma_end_at(ns, j, k + 1, i);
    }
}

/// A node with no later node as shallow ends its subtree at the end.
proof fn lemma_end_last(ns: Seq<TsNode>, j: int, k: int)
    requires
        0 <= j < k <= ns.len(),
        forall|m: int| k <= m < ns.len() ==> ns[m].depth > ns[j].depth,
    ensures
        end_from(ns, j, k) == ns.len(),
    decreases ns.len() - k,
{
    if k < ns.len() {
        lemma_end_last(ns, j, k + 1);
    }
}

/// `t` is the plain form of the tree-sitter tree `tree` of `source`: a
/// well-formed tree whose nodes are those of `tree`, in pre-order, each
/// with the text of `source` that its byte range covers.
pub open spec fn models(t: SyntaxTree, tree: tree_sitter::Tree, source: Seq<char>) -> bool {
    models_nodes(t, tree_nodes(tree), source)
}

/// `t` is the plain form of the tree-sitter nodes `ns` of `source`.
pub open spec fn models_nodes(t: SyntaxTree, ns: Seq<TsNode>, source: Seq<char>) -> bool {
    &&& t.wf()
    &&& t.texts_from(source)
    &&& tree_from(t, ns, source)
}

/// Converts a tree-sitter tree of `source` into a [`SyntaxTree`] in
/// pre-order: the tree its nodes describe, each node's text being the part
/// of `source` its byte range covers. What tree-sitter reports of each node
/// (pre-order depths, rows in order, 32-bit sizes) makes the nodes a tree,
/// so the conversion always succeeds.
pub fn syntax_tree_from(tree: &tree_sitter::Tree, source: &str) -> (r: Option<SyntaxTree>)
    ensures
        r matches Some(t) && models(t, *tree, source@),
{
    let ghost ns = tree_nodes(*tree);
    let count = tree_node_count(tree);
    if count >= usize::MAX - 1 {
        return None;
    }
    let mut raw: Vec<SyntaxNode> = Vec::new();
    let mut ends: Vec<usize> = Vec::new();
    let mut stack: Vec<usize> = Vec::new();
    let mut i: usize = 0;
    while i < count
        invariant
            ns == tree_nodes(*tree),
            count == ns.len(),
            0 < count < usize::MAX - 1,
            i <= count,
            raw@.len() == i,
            ends@.len() == i,
            forall|k: int| 0 <= k < i ==> #[trigger] node_shaped(ns, k),
            i == 0 ==> stack@.len() == 0,
            i > 0 ==> stack@.len() == ns[i - 1].depth + 1,
            forall|a: int| 0 <= a < stack@.len() ==> #[trigger] stack@[a] < i && ns[stack@[a] as int].depth == a
                && last_at_depth(ns, i as int, a) == Some(stack@[a] as int) && ends@[stack@[a] as int] == count,
            forall|a: int, k: int| #![trigger stack@[a], ns[k]] 0 <= a < stack@.len() && stack@[a] < k < i ==> ns[k].depth > a,
            forall|k: int| 0 <= k < i ==> k < #[trigger] ends@[k] <= count,
            forall|k: int| 0 <= k < i && ends@[k] < i ==> #[trigger] ends@[k] == end_from(ns, k, k + 1),
            forall|k: int| 0 <= k < i && ends@[k] >= i ==> #[trigger] ends@[k] == count
                && ns[k].depth < stack@.len() && stack@[ns[k].depth] == k,
            forall|k: int| 0 <= k < i ==> {
                let n = #[trigger] raw@[k];
                &&& n.kind@ == ns[k].kind
                &&& n.named == ns[k].named
                &&& opt_view(n.field) == ns[k].field
                &&& n.start_row == ns[k].start_row
                &&& n.start_col == ns[k].start_col
                &&& n.end_row == ns[k].end_row
                &&& n.end_col == ns[k].end_col
                &&& n.start_byte == ns[k].start_byte
                &&& n.end_byte == ns[k].end_byte
                &&& opt_view(n.text) == text_of_range(source@, n.start_byte as int, n.end_byte as int)
                &&& opt_int(n.parent) == parent_at(ns, k)
                &&& (n.parent matches Some(p) ==> p < k)
            },
        decreases count - i,
    {
        let (kind, named, field, depth) = tree_node_label(tree, i);
        if i == 0 && depth != 0 {
            proof {
                assert(!node_shaped(ns, i as int));
            }
            return None;
        }
        if i > 0 && (depth == 0 || depth > stack.len()) {
            proof {
                assert(!node_shaped(ns, i as int));
            }
            return None;
        }
        let ghost st0 = stack@;
        let ghost ends0 = ends@;
        while stack.len() > depth
            invariant
                ns == tree_nodes(*tree),
                count == ns.len(),
                i < count,
                depth == ns[i as int].depth,
                depth <= stack@.len() <= st0.len(),
                stack@ == st0.take(stack@.len() as int),
                ends@.len() == i,
                forall|a: int| stack@.len() <= a < st0.len() ==> #[trigger] ends@[st0[a] as int] == i,
                forall|a: int| 0 <= a < stack@.len() ==> #[trigger] ends@[st0[a] as int] == count,
                forall|k: int| 0 <= k < i ==> #[trigger] ends@[k] == ends0[k] || ends@[k] == i,
                forall|k: int| 0 <= k < i && #[trigger] ends@[k] == i && ends0[k] != i ==>
                    ns[k].depth < st0.len() && st0[ns[k].depth] == k && ns[k].depth >= stack@.len(),
                forall|a: int| 0 <= a < st0.len() ==> #[trigger] st0[a] < i && ns[st0[a] as int].depth == a,
                count > i,
            decreases stack@.len(),
        {
            let j = stack.pop().unwrap();
            proof {
                assert(st0[stack@.len() as int] == j);
            }
            let ghost ends_prev = ends@;
            ends.set(j, i);
            proof {
                assert(stack@ =~= st0.take(stack@.len() as int));
                assert(ns[j as int].depth == stack@.len());
                assert(st0[ns[j as int].depth] == j);
                assert forall|k: int| 0 <= k < i && #[trigger] ends@[k] == i && ends0[k] != i implies
                    ns[k].depth < st0.len() && st0[ns[k].depth] == k && ns[k].depth >= stack@.len() by {
                    if k != j {
                        assert(ends_prev[k] == ends@[k]);
                        assert(st0[ns[k].depth] == k);
                    }
                }
                assert forall|a: int| 0 <= a < stack@.len() implies #[trigger] ends@[st0[a] as int] == count by {
                    assert(ns[st0[a] as int].depth == a);
                    assert(ends_prev[st0[a] as int] == count);
                }
            }
        }
        let parent = if depth == 0 {
            None
        } else {
            Some(stack[depth - 1])
        };
        let (sr, sc, er, ec, sb, eb) = tree_node_span(tree, i);
        if sr == usize::MAX || er == usize::MAX || sc == usize::MAX || er < sr {
            proof {
                assert(!node_shaped(ns, i as int));
            }
            return None;
        }
        let text = text_between(source, sb, eb);
        let ghost ends1 = ends@;
        let ghost st1 = stack@;
        assert(st1 =~= st0.take(depth as int));
        raw.push(
            SyntaxNode {
                kind,
                named,
                field,
                start_row: sr,
                start_col: sc,
                end_row: er,
                end_col: ec,
                start_byte: sb,
                end_byte: eb,
                text,
                parent,
                end: count,
            },
        );
        ends.push(count);
        stack.push(i);
        proof {
            assert(node_shaped(ns, i as int));
            // the ends of the nodes closed at `i`
            assert forall|k: int| 0 <= k < i + 1 && ends@[k] < i + 1 implies #[trigger] ends@[k] == end_from(ns, k, k + 1) by {
                if k < i {
                    if ends0[k] < i {
                        if ends1[k] == i {
                            assert(ns[k].depth < st0.len() && st0[ns[k].depth] == k);
                            assert(ends0[st0[ns[k].depth] as int] == count);
                            assert(false);
                        }
                    } else {
                        assert(ends0[k] == count);
                        assert(ends1[k] == i);
                        assert(ns[k].depth < st0.len() && st0[ns[k].depth] == k);
                        let a = ns[k].depth;
                        assert forall|m: int| k + 1 <= m < i implies ns[m].depth > ns[k].depth by {
                            assert(st0[a] < m < i);
                        }
                        lemma_end_at(ns, k, k + 1, i as int);
                    }
                }
            }
            assert forall|k: int| 0 <= k < i + 1 && ends@[k] >= i + 1 implies #[trigger] ends@[k] == count
                && ns[k].depth < stack@.len() && stack@[ns[k].depth] == k by {
                if k < i {
                    assert(ends1[k] == ends0[k]);
                    assert(ends0[k] >= i);
                    assert(ends0[k] == count);
                    assert(ns[k].depth < st0.len() && st0[ns[k].depth] == k);
                    if ns[k].depth >= depth {
                        assert(ends1[st0[ns[k].depth] as int] == i);
                        assert(false);
                    }
                    assert(node_shaped(ns, k));
                    assert(st1[ns[k].depth] == st0[ns[k].depth]);
                    assert(stack@[ns[k].depth] == st0[ns[k].depth]);
                } else {
                    assert(stack@[depth as int] == i);
                }
            }
            assert forall|a: int| 0 <= a < stack@.len() implies #[trigger] stack@[a] < i + 1
                && ns[stack@[a] as int].depth == a && last_at_depth(ns, i + 1, a) == Some(stack@[a] as int) by {
                if a < depth {
                    assert(stack@[a] == st0[a]);
                    assert(last_at_depth(ns, i as int, a) == Some(st0[a] as int));
                    assert(ends1[st0[a] as int] == count);
                } else {
                    assert(stack@[a] == i);
                }
            }
            assert forall|a: int, k: int| #![trigger stack@[a], ns[k]] 0 <= a < stack@.len() && stack@[a] < k < i + 1 implies ns[k].depth > a by {
                if a < depth {
                    assert(stack@[a] == st0[a]);
                    if k < i {
                        assert(st0[a] < k < i);
                    }
                }
            }
            if depth > 0 {
                assert(stack@[depth - 1] == st0[depth - 1]);
                assert(last_at_depth(ns, i as int, depth - 1) == Some(st0[depth - 1] as int));
            }
            assert(opt_int(parent) == parent_at(ns, i as int));
            assert forall|k: int| 0 <= k < i + 1 implies k < #[trigger] ends@[k] <= count by {
                if k < i {
                    assert(ends1[k] == ends0[k] || ends1[k] == i);
                }
            }
            assert forall|k: int| 0 <= k < i + 1 implies #[trigger] node_shaped(ns, k) by {}
        }
        i = i + 1;
    }
    proof {
        assert(i == count);
        assert(forall|a: int, k: int| #![trigger stack@[a], ns[k]] 0 <= a < stack@.len() && stack@[a] < k < count ==> ns[k].depth > a);
        assert forall|k: int| 0 <= k < count implies #[trigger] ends@[k] == end_from(ns, k, k + 1) by {
            if ends@[k] >= count {
                let a = ns[k].depth;
                assert(node_shaped(ns, k));
                assert(stack@[a] == k);
                assert forall|m: int| k + 1 <= m < count implies ns[m].depth > ns[k].depth by {
                    assert(stack@[a] < m < i);
                    assert(ns[m].depth > a);
                }
                lemma_end_last(ns, k, k + 1);
            }
        }
    }
    let mut nodes: Vec<SyntaxNode> = Vec::new();
    let mut k: usize = 0;
    while k < count
        invariant
            k <= count,
            count < usize::MAX - 1,
            raw@.len() == count,
            ends@.len() == count,
            nodes@.len() == k,
            forall|m: int| 0 <= m < count ==> m < #[trigger] ends@[m] <= count,
            forall|m: int| 0 <= m < k ==> #[trigger] nodes@[m] == (SyntaxNode { end: ends@[m], ..raw@[m] }),
        decreases count - k,
    {
        nodes.push(with_end(&raw[k], ends[k]));
        k = k + 1;
    }
    let t = SyntaxTree { nodes };
    assert forall|m: int| 0 <= m < t.nodes@.len() implies #[trigger] t.node_ok(m) by {
        assert(t.nodes@[m] == (SyntaxNode { end: ends@[m], ..raw@[m] }));
        assert(m < ends@[m] <= count);
        assert(node_shaped(ns, m));
    }
    assert forall|m: int| 0 <= m < t.nodes@.len() implies #[trigger] t.text(m) == text_of_range(
        source@, t.nodes@[m].start_byte as int, t.nodes@[m].end_byte as int) by {
        assert(t.nodes@[m] == (SyntaxNode { end: ends@[m], ..raw@[m] }));
    }
    assert forall|m: int| 0 <= m < ns.len() implies #[trigger] node_from(t, ns, source@, m) by {
        assert(t.nodes@[m] == (SyntaxNode { end: ends@[m], ..raw@[m] }));
        assert(ends@[m] == end_from(ns, m, m + 1));
    }
    assert(tree_shaped(ns));
    Some(t)
}

} // verus!
