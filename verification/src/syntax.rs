//! A syntax tree held as plain values.
//!
//! The nodes of a tree are stored in pre-order. Each node records the
//! pre-order index one past the end of its own subtree (`end`), so the
//! subtree of node `i` is the index range `[i, end)`, its first child is
//! `i + 1` (when `i + 1 < end`) and the sibling that follows a child `c` is
//! the node at `c`'s own `end`.
use vstd::prelude::*;
use vstd::utf8::{decode_utf8, encode_utf8, valid_utf8};
use crate::text::str_equal;

verus! {

/// One node of a syntax tree.
pub struct SyntaxNode {
    /// The grammar's name for the node, e.g. `function_item`.
    pub kind: String,
    /// Whether the node is named (as opposed to a literal token such as `(`).
    pub named: bool,
    /// The field under which the node hangs in its parent, if any.
    pub field: Option<String>,
    /// Zero-based row and column where the node starts.
    pub start_row: usize,
    pub start_col: usize,
    /// Zero-based row and column where the node ends.
    pub end_row: usize,
    pub end_col: usize,
    /// Byte range of the node in the source.
    pub start_byte: usize,
    pub end_byte: usize,
    /// The source text covered by the node, when it is valid UTF-8.
    pub text: Option<String>,
    /// Pre-order index of the parent node (`None` for the root).
    pub parent: Option<usize>,
    /// Pre-order index one past the last node of this node's subtree.
    pub end: usize,
}

/// A syntax tree; node 0 is the root.
pub struct SyntaxTree {
    pub nodes: Vec<SyntaxNode>,
}

/// The text that a byte range of a source covers, when the range lies in the
/// source and decodes as UTF-8.
pub open spec fn text_of_range(source: Seq<char>, start: int, end: int) -> Option<Seq<char>> {
    let bytes = encode_utf8(source);
    if 0 <= start <= end <= bytes.len() && valid_utf8(bytes.subrange(start, end)) {
        Some(decode_utf8(bytes.subrange(start, end)))
    } else {
        None
    }
}

/// The elements `f(i)` that are present, for `i` from `lo` up to `hi`, in order.
pub open spec fn collect_some<T>(f: spec_fn(int) -> Option<T>, lo: int, hi: int) -> Seq<T>
    decreases hi - lo,
{
    if hi <= lo {
        Seq::empty()
    } else {
        collect_some(f, lo, hi - 1) + match f(hi - 1) {
            Some(x) => seq![x],
            None => Seq::empty(),
        }
    }
}

/// An element is collected exactly when some index in range yields it.
pub proof fn lemma_collect_some_contains<T>(f: spec_fn(int) -> Option<T>, lo: int, hi: int, x: T)
    ensures
        collect_some(f, lo, hi).contains(x) <==> exists|j: int| lo <= j < hi && #[trigger] f(j) == Some(x),
    decreases hi - lo,
{
    if hi > lo {
        lemma_collect_some_contains(f, lo, hi - 1, x);
        let prev = collect_some(f, lo, hi - 1);
        let last: Seq<T> = match f(hi - 1) {
            Some(y) => seq![y],
            None => Seq::empty(),
        };
        assert(collect_some(f, lo, hi) == prev + last);
        if collect_some(f, lo, hi).contains(x) {
            let k = choose|k: int| 0 <= k < collect_some(f, lo, hi).len() && collect_some(f, lo, hi)[k] == x;
            if k < prev.len() {
                assert(prev[k] == x);
            } else {
                assert(f(hi - 1) == Some(x));
            }
        }
        if exists|j: int| lo <= j < hi && #[trigger] f(j) == Some(x) {
            let j = choose|j: int| lo <= j < hi && #[trigger] f(j) == Some(x);
            if j < hi - 1 {
                assert(prev.contains(x));
                let k = choose|k: int| 0 <= k < prev.len() && prev[k] == x;
                assert(collect_some(f, lo, hi)[k] == x);
            } else {
                assert(collect_some(f, lo, hi)[prev.len() as int] == x);
            }
        }
    }
}

/// The text of the first node in `cs` whose kind is `identifier` and whose
/// text is known.
pub open spec fn first_identifier_text(t: SyntaxTree, cs: Seq<int>) -> Option<Seq<char>>
    decreases cs.len(),
{
    if cs.len() == 0 {
        None
    } else if t.kind(cs[0]) == "identifier"@ && t.text(cs[0]) is Some {
        t.text(cs[0])
    } else {
        first_identifier_text(t, cs.drop_first())
    }
}

/// The sum of `f` over the elements of `s`.
pub open spec fn sum_of(s: Seq<int>, f: spec_fn(int) -> nat) -> nat
    decreases s.len(),
{
    if s.len() == 0 {
        0
    } else {
        f(s[0]) + sum_of(s.drop_first(), f)
    }
}

/// A pointwise smaller function has a smaller sum.
pub proof fn lemma_sum_le(s: Seq<int>, f: spec_fn(int) -> nat, g: spec_fn(int) -> nat)
    requires
        forall|k: int| 0 <= k < s.len() ==> f(s[k]) <= g(s[k]),
    ensures
        sum_of(s, f) <= sum_of(s, g),
    decreases s.len(),
{
    if s.len() > 0 {
        assert forall|k: int| 0 <= k < s.drop_first().len() implies f(s.drop_first()[k]) <= g(s.drop_first()[k]) by {
            assert(s.drop_first()[k] == s[k + 1]);
        }
        lemma_sum_le(s.drop_first(), f, g);
    }
}

/// Adding the next element of `s` to a prefix sum.
pub proof fn lemma_sum_step(s: Seq<int>, f: spec_fn(int) -> nat, k: int)
    requires
        0 <= k < s.len(),
    ensures
        sum_of(s.skip(k), f) == f(s[k]) + sum_of(s.skip(k + 1), f),
{
    assert(s.skip(k).drop_first() =~= s.skip(k + 1));
}

/// A sum of terms that are at most one is at most the number of terms.
pub proof fn lemma_sum_le_len(s: Seq<int>, f: spec_fn(int) -> nat)
    requires
        forall|k: int| 0 <= k < s.len() ==> f(s[k]) <= 1,
    ensures
        sum_of(s, f) <= s.len(),
    decreases s.len(),
{
    if s.len() > 0 {
        assert forall|k: int| 0 <= k < s.drop_first().len() implies f(s.drop_first()[k]) <= 1 by {
            assert(s.drop_first()[k] == s[k + 1]);
        }
        lemma_sum_le_len(s.drop_first(), f);
    }
}

/// The first element of `s` that satisfies `p`.
pub open spec fn first_where(s: Seq<int>, p: spec_fn(int) -> bool) -> Option<int>
    decreases s.len(),
{
    if s.len() == 0 {
        None
    } else if p(s[0]) {
        Some(s[0])
    } else {
        first_where(s.drop_first(), p)
    }
}

/// A sequence of indices as integers.
pub open spec fn ints(v: Seq<usize>) -> Seq<int> {
    v.map_values(|c: usize| c as int)
}

/// An optional index as an integer.
pub open spec fn opt_int(o: Option<usize>) -> Option<int> {
    match o {
        Some(x) => Some(x as int),
        None => None,
    }
}

/// The view of an optional string.
pub open spec fn opt_view(o: Option<String>) -> Option<Seq<char>> {
    match o {
        Some(s) => Some(s@),
        None => None,
    }
}

impl SyntaxTree {
    pub open spec fn len(&self) -> int {
        self.nodes@.len() as int
    }

    pub open spec fn node(&self, i: int) -> SyntaxNode {
        self.nodes@[i]
    }

    pub open spec fn kind(&self, i: int) -> Seq<char> {
        self.nodes@[i].kind@
    }

    pub open spec fn named(&self, i: int) -> bool {
        self.nodes@[i].named
    }

    pub open spec fn end(&self, i: int) -> int {
        self.nodes@[i].end as int
    }

    /// One-based line on which node `i` starts.
    pub open spec fn line(&self, i: int) -> int {
        self.nodes@[i].start_row + 1
    }

    /// One-based line on which node `i` ends.
    pub open spec fn end_line(&self, i: int) -> int {
        self.nodes@[i].end_row + 1
    }

    pub open spec fn text(&self, i: int) -> Option<Seq<char>> {
        opt_view(self.nodes@[i].text)
    }

    pub open spec fn field(&self, i: int) -> Option<Seq<char>> {
        opt_view(self.nodes@[i].field)
    }

    /// The tree is non-empty and every index that a node holds lies in range.
    pub open spec fn wf(&self) -> bool {
        &&& self.nodes@.len() > 0
        &&& self.nodes@.len() < usize::MAX
        &&& forall|i: int| 0 <= i < self.nodes@.len() ==> #[trigger] self.node_ok(i)
    }

    pub open spec fn node_ok(&self, i: int) -> bool {
        let n = self.nodes@[i];
        &&& i < n.end <= self.nodes@.len()
        &&& (n.parent matches Some(p) ==> p < i)
        &&& n.start_row < usize::MAX
        &&& n.end_row < usize::MAX
        &&& n.start_col < usize::MAX
        &&& n.start_row <= n.end_row
    }

    /// Each node's text is what its byte range covers in `source`.
    pub open spec fn texts_from(&self, source: Seq<char>) -> bool {
        forall|i: int| 0 <= i < self.nodes@.len() ==>
            #[trigger] self.text(i) == text_of_range(
                source, self.nodes@[i].start_byte as int, self.nodes@[i].end_byte as int)
    }

    /// The sibling chain that starts at `j` and stays below `stop`.
    pub open spec fn chain(&self, j: int, stop: int) -> Seq<int>
        decreases stop - j,
    {
        if 0 <= j < stop && j < self.len() && self.end(j) > j {
            if self.end(j) < stop {
                seq![j].add(self.chain(self.end(j), stop))
            } else {
                seq![j]
            }
        } else {
            Seq::empty()
        }
    }

    /// The children of node `i`, in order.
    pub open spec fn children(&self, i: int) -> Seq<int> {
        self.chain(i + 1, self.end(i))
    }

    /// Every node of a sibling chain lies between its start and its stop.
    pub proof fn lemma_chain_bounds(&self, j: int, stop: int)
        ensures
            forall|k: int| 0 <= k < self.chain(j, stop).len() ==>
                j <= #[trigger] self.chain(j, stop)[k] < stop && self.chain(j, stop)[k] < self.len(),
        decreases stop - j,
    {
        if 0 <= j < stop && j < self.len() && self.end(j) > j && self.end(j) < stop {
            let c = self.chain(j, stop);
            let rest = self.chain(self.end(j), stop);
            self.lemma_chain_bounds(self.end(j), stop);
            assert(c == seq![j].add(rest));
            assert forall|k: int| 0 <= k < c.len() implies j <= #[trigger] c[k] < stop && c[k] < self.len() by {
                if k > 0 {
                    assert(c[k] == rest[k - 1]);
                }
            }
        }
    }

    /// The number of children of each node, plus one for the node itself.
    pub open spec fn child_counts(&self) -> spec_fn(int) -> nat {
        |x: int| self.children(x).len() + 1
    }

    /// A sibling chain below `stop` has at most `stop - j` nodes.
    pub proof fn lemma_chain_len(&self, j: int, stop: int)
        ensures
            self.chain(j, stop).len() == 0 || self.chain(j, stop).len() <= stop - j,
        decreases stop - j,
    {
        if 0 <= j < stop && j < self.len() && self.end(j) > j && self.end(j) < stop {
            self.lemma_chain_len(self.end(j), stop);
        }
    }

    /// The children of the nodes of a sibling chain number at most the
    /// nodes that follow its start.
    pub proof fn lemma_chain_children_sum(&self, j: int, stop: int)
        requires
            self.wf(),
            0 <= j,
        ensures
            sum_of(self.chain(j, stop), self.child_counts()) <= self.len() - j
                || self.chain(j, stop).len() == 0,
        decreases stop - j,
    {
        if 0 <= j < stop && j < self.len() && self.end(j) > j {
            assert(self.node_ok(j));
            self.lemma_chain_len(j + 1, self.end(j));
            let c = self.chain(j, stop);
            let f = self.child_counts();
            assert(c[0] == j);
            assert(f(j) == self.children(j).len() + 1);
            assert(self.children(j).len() <= self.end(j) - j - 1 || self.children(j).len() == 0);
            if self.end(j) < stop {
                self.lemma_chain_children_sum(self.end(j), stop);
                assert(c.drop_first() =~= self.chain(self.end(j), stop));
                assert(sum_of(c, f) == f(j) + sum_of(self.chain(self.end(j), stop), f));
            } else {
                assert(c.drop_first() =~= Seq::<int>::empty());
                assert(sum_of(c, f) == f(j) + sum_of(c.drop_first(), f));
                assert(sum_of(c.drop_first(), f) == 0);
            }
        }
    }

    /// The children of node `i`, counted with their own children, number
    /// fewer than the nodes of the tree.
    pub proof fn lemma_grandchildren(&self, i: int)
        requires
            self.wf(),
            0 <= i < self.len(),
        ensures
            sum_of(self.children(i), self.child_counts()) < self.len(),
    {
        self.lemma_chain_children_sum(i + 1, self.end(i));
    }

    /// The children of node `i`, in order.
    pub fn children_of(&self, i: usize) -> (v: Vec<usize>)
        requires
            self.wf(),
            i < self.len(),
        ensures
            ints(v@) == self.children(i as int),
            forall|k: int| 0 <= k < v@.len() ==> i < #[trigger] v@[k] < self.end(i as int),
            forall|k: int| 0 <= k < v@.len() ==> #[trigger] v@[k] < self.len(),
    {
        let stop = self.nodes[i].end;
        assert(self.node_ok(i as int));
        let mut v: Vec<usize> = Vec::new();
        let mut j = i + 1;
        let ghost visited: Seq<int> = Seq::empty();
        while j < stop
            invariant
                self.wf(),
                i < j,
                stop as int == self.end(i as int),
                stop <= self.len(),
                v@.len() == visited.len(),
                forall|k: int| 0 <= k < v@.len() ==> #[trigger] v@[k] as int == visited[k],
                forall|k: int| 0 <= k < v@.len() ==> i < #[trigger] v@[k] < stop,
                visited + self.chain(j as int, stop as int) == self.children(i as int),
            decreases self.len() - j,
        {
            assert(self.node_ok(j as int));
            let next = self.nodes[j].end;
            assert(self.chain(j as int, stop as int) == seq![j as int].add(self.chain(next as int, stop as int)));
            proof {
                visited = visited.push(j as int);
            }
            v.push(j);
            assert(visited + self.chain(next as int, stop as int) == self.children(i as int));
            j = next;
        }
        assert(self.chain(j as int, stop as int) == Seq::<int>::empty());
        assert(visited == self.children(i as int));
        assert(ints(v@) =~= visited);
        v
    }

    /// The text of the first node among `cs` whose kind is `identifier`
    /// and whose text is known.
    pub fn first_identifier_among(&self, cs: &Vec<usize>) -> (r: Option<String>)
        requires
            forall|k: int| 0 <= k < cs@.len() ==> #[trigger] cs@[k] < self.len(),
        ensures
            opt_view(r) == first_identifier_text(*self, ints(cs@)),
    {
        let ghost all = ints(cs@);
        assert(all.subrange(0, all.len() as int) =~= all);
        let mut k: usize = 0;
        while k < cs.len()
            invariant
                k <= cs@.len(),
                all == ints(cs@),
                forall|m: int| 0 <= m < cs@.len() ==> #[trigger] cs@[m] < self.len(),
                first_identifier_text(*self, all) == first_identifier_text(*self, all.subrange(k as int, all.len() as int)),
            decreases cs@.len() - k,
        {
            let c = cs[k];
            let ghost rest = all.subrange(k as int, all.len() as int);
            assert(rest[0] == c as int);
            assert(rest.drop_first() =~= all.subrange(k + 1, all.len() as int));
            if self.kind_is(c, "identifier") {
                match &self.nodes[c].text {
                    Some(t) => {
                        return Some(t.clone());
                    },
                    None => {},
                }
            }
            k = k + 1;
        }
        assert(all.subrange(k as int, all.len() as int).len() == 0);
        None
    }

    /// The first child of `x` that hangs under field `f`.
    pub open spec fn field_child(&self, x: int, f: Seq<char>) -> Option<int> {
        first_where(self.children(x), |c: int| self.field(c) == Some(f))
    }

    /// The first child of `x` under field `f` (`child_by_field_name`).
    pub fn child_by_field(&self, x: usize, f: &str) -> (r: Option<usize>)
        requires
            self.wf(),
            x < self.len(),
        ensures
            opt_int(r) == self.field_child(x as int, f@),
            r matches Some(c) ==> x < c < self.len(),
    {
        let cs = self.children_of(x);
        let ghost all = ints(cs@);
        let ghost p = |c: int| self.field(c) == Some(f@);
        assert(all.subrange(0, all.len() as int) =~= all);
        let mut k: usize = 0;
        while k < cs.len()
            invariant
                k <= cs@.len(),
                all == ints(cs@),
                all == self.children(x as int),
                p == (|c: int| self.field(c) == Some(f@)),
                forall|m: int| 0 <= m < cs@.len() ==> x < #[trigger] cs@[m] < self.len(),
                first_where(all, p) == first_where(all.subrange(k as int, all.len() as int), p),
            decreases cs@.len() - k,
        {
            let c = cs[k];
            let ghost rest = all.subrange(k as int, all.len() as int);
            assert(rest[0] == c as int);
            assert(rest.drop_first() =~= all.subrange(k + 1, all.len() as int));
            match &self.nodes[c].field {
                Some(name) => {
                    if str_equal(name.as_str(), f) {
                        return Some(c);
                    }
                },
                None => {},
            }
            k = k + 1;
        }
        assert(all.subrange(k as int, all.len() as int).len() == 0);
        None
    }

    /// The first named child of `x` whose kind is `k`.
    pub open spec fn named_child_of_kind(&self, x: int, k: Seq<char>) -> Option<int> {
        first_where(self.children(x), |c: int| self.named(c) && self.kind(c) == k)
    }

    /// The first named child of `x` whose kind is `k`.
    pub fn first_named_child_of_kind(&self, x: usize, k: &str) -> (r: Option<usize>)
        requires
            self.wf(),
            x < self.len(),
        ensures
            opt_int(r) == self.named_child_of_kind(x as int, k@),
            r matches Some(c) ==> x < c < self.len(),
    {
        let cs = self.children_of(x);
        let ghost all = ints(cs@);
        let ghost p = |c: int| self.named(c) && self.kind(c) == k@;
        assert(all.subrange(0, all.len() as int) =~= all);
        let mut j: usize = 0;
        while j < cs.len()
            invariant
                j <= cs@.len(),
                all == ints(cs@),
                all == self.children(x as int),
                p == (|c: int| self.named(c) && self.kind(c) == k@),
                forall|m: int| 0 <= m < cs@.len() ==> x < #[trigger] cs@[m] < self.len(),
                first_where(all, p) == first_where(all.subrange(j as int, all.len() as int), p),
            decreases cs@.len() - j,
        {
            let c = cs[j];
            let ghost rest = all.subrange(j as int, all.len() as int);
            assert(rest[0] == c as int);
            assert(rest.drop_first() =~= all.subrange(j + 1, all.len() as int));
            if self.nodes[c].named && self.kind_is(c, k) {
                return Some(c);
            }
            j = j + 1;
        }
        assert(all.subrange(j as int, all.len() as int).len() == 0);
        None
    }

    /// The source text of node `i`, when known.
    pub fn text_of(&self, i: usize) -> (r: Option<String>)
        requires
            i < self.len(),
        ensures
            opt_view(r) == self.text(i as int),
    {
        match &self.nodes[i].text {
            Some(t) => Some(t.clone()),
            None => None,
        }
    }

    /// Whether node `i` has the kind `k`.
    pub fn kind_is(&self, i: usize, k: &str) -> (r: bool)
        requires
            i < self.len(),
        ensures
            r == (self.kind(i as int) == k@),
    {
        str_equal(self.nodes[i].kind.as_str(), k)
    }
}

} // verus!
