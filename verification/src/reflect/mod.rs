//! Reflection over code: program slices, data-flow traces, call graphs and
//! the records they produce.
use vstd::prelude::*;

pub mod slice;
pub mod analysis;
pub mod dataflow;

verus! {

/// One statement of a slice: where it is and what it says.
pub struct SliceEntry {
    pub file: String,
    pub line: usize,
    pub text: String,
}

/// One step of a data-flow trace: a variable, the expression it comes
/// from, and the line that declares it.
pub struct FlowEntry {
    pub var: String,
    pub from: String,
    pub line: usize,
}

/// What a language model adds to a finding.
pub struct LlmEnhancement {
    pub priority: String,
    pub explanation: String,
    pub confidence: String,
}

/// The view of a slice entry: file, line and text.
pub open spec fn entry_view(e: SliceEntry) -> (Seq<char>, int, Seq<char>) {
    (e.file@, e.line as int, e.text@)
}

/// The views of a list of slice entries.
pub open spec fn entry_views(v: Seq<SliceEntry>) -> Seq<(Seq<char>, int, Seq<char>)> {
    v.map_values(|e: SliceEntry| entry_view(e))
}

/// The views of a list with one more entry.
pub proof fn lemma_entries_push(v: Seq<SliceEntry>, x: SliceEntry)
    ensures
        entry_views(v.push(x)) == entry_views(v).push(entry_view(x)),
{
    assert(entry_views(v.push(x)) =~= entry_views(v).push(entry_view(x)));
}

/// `e` placed into `s` after every entry whose line is not greater.
pub open spec fn ins_by_line(s: Seq<SliceEntry>, e: SliceEntry) -> Seq<SliceEntry>
    decreases s.len(),
{
    if s.len() == 0 {
        seq![e]
    } else if s.last().line <= e.line {
        s.push(e)
    } else {
        ins_by_line(s.drop_last(), e).push(s.last())
    }
}

/// The position at which `ins_by_line` places `e`.
pub open spec fn ins_pos(s: Seq<SliceEntry>, e: SliceEntry) -> int
    decreases s.len(),
{
    if s.len() == 0 {
        0
    } else if s.last().line <= e.line {
        s.len() as int
    } else {
        ins_pos(s.drop_last(), e)
    }
}

/// The entries ordered by line, entries on the same line in their first
/// order (a stable sort by line).
pub open spec fn sort_by_line_spec(s: Seq<SliceEntry>) -> Seq<SliceEntry>
    decreases s.len(),
{
    if s.len() == 0 {
        s
    } else {
        ins_by_line(sort_by_line_spec(s.drop_last()), s.last())
    }
}

/// The entries' lines do not decrease.
pub open spec fn sorted_by_line(s: Seq<SliceEntry>) -> bool {
    forall|i: int, j: int| 0 <= i < j < s.len() ==> (#[trigger] s[i]).line <= (#[trigger] s[j]).line
}

/// Placing an entry is inserting it at its position.
pub proof fn lemma_ins_by_line(s: Seq<SliceEntry>, e: SliceEntry)
    ensures
        0 <= ins_pos(s, e) <= s.len(),
        ins_by_line(s, e) == s.insert(ins_pos(s, e), e),
        forall|i: int| ins_pos(s, e) <= i < s.len() ==> (#[trigger] s[i]).line > e.line,
    decreases s.len(),
{
    if s.len() == 0 {
        assert(seq![e] =~= s.insert(0, e));
    } else if s.last().line <= e.line {
        assert(s.push(e) =~= s.insert(s.len() as int, e));
    } else {
        lemma_ins_by_line(s.drop_last(), e);
        let k = ins_pos(s.drop_last(), e);
        assert(ins_by_line(s.drop_last(), e).push(s.last()) =~= s.insert(k, e));
        assert forall|i: int| ins_pos(s, e) <= i < s.len() implies (#[trigger] s[i]).line > e.line by {
            if i < s.len() - 1 {
                assert(s.drop_last()[i] == s[i]);
            }
        }
    }
}

/// Placing an entry keeps a list ordered by line ordered.
pub proof fn lemma_ins_sorted(s: Seq<SliceEntry>, e: SliceEntry)
    requires
        sorted_by_line(s),
    ensures
        sorted_by_line(ins_by_line(s, e)),
        forall|i: int| 0 <= i < ins_pos(s, e) ==> (#[trigger] s[i]).line <= e.line,
    decreases s.len(),
{
    lemma_ins_by_line(s, e);
    if s.len() > 0 {
        if s.last().line <= e.line {
            assert forall|i: int| 0 <= i < s.len() implies (#[trigger] s[i]).line <= e.line by {
                if i < s.len() - 1 {
                    assert(s[i].line <= s[s.len() - 1].line);
                }
            }
        } else {
            let p = s.drop_last();
            assert(sorted_by_line(p)) by {
                assert forall|i: int, j: int| 0 <= i < j < p.len() implies (#[trigger] p[i]).line <= (#[trigger] p[j]).line by {
                    assert(p[i] == s[i] && p[j] == s[j]);
                }
            }
            lemma_ins_sorted(p, e);
            lemma_ins_by_line(p, e);
            assert forall|i: int| 0 <= i < ins_pos(s, e) implies (#[trigger] s[i]).line <= e.line by {
                assert(p[i] == s[i]);
            }
        }
    }
    let r = ins_by_line(s, e);
    let k = ins_pos(s, e);
    assert forall|i: int, j: int| 0 <= i < j < r.len() implies (#[trigger] r[i]).line <= (#[trigger] r[j]).line by {
        if j < k {
            assert(r[i] == s[i] && r[j] == s[j]);
        } else if j == k {
            assert(r[i] == s[i]);
        } else if i < k {
            assert(r[i] == s[i] && r[j] == s[j - 1]);
        } else if i == k {
            assert(r[j] == s[j - 1]);
        } else {
            assert(r[i] == s[i - 1] && r[j] == s[j - 1]);
        }
    }
}

/// A copy of an entry.
pub fn copy_entry(e: &SliceEntry) -> (r: SliceEntry)
    ensures
        r == *e,
{
    SliceEntry { file: e.file.clone(), line: e.line, text: e.text.clone() }
}

/// The entries ordered by line, keeping the order of entries on the same
/// line.
pub fn sort_entries_by_line(v: &Vec<SliceEntry>) -> (r: Vec<SliceEntry>)
    ensures
        r@ == sort_by_line_spec(v@),
        sorted_by_line(r@),
        r@.to_multiset() == v@.to_multiset(),
{
    let mut r: Vec<SliceEntry> = Vec::new();
    let mut i: usize = 0;
    assert(v@.take(0) =~= Seq::<SliceEntry>::empty());
    while i < v.len()
        invariant
            i <= v@.len(),
            r@ == sort_by_line_spec(v@.take(i as int)),
            sorted_by_line(r@),
            r@.to_multiset() == v@.take(i as int).to_multiset(),
        decreases v@.len() - i,
    {
        let e = copy_entry(&v[i]);
        let ghost r0 = r@;
        let mut k: usize = r.len();
        assert(r0.take(r0.len() as int) =~= r0);
        while k > 0 && r[k - 1].line > e.line
            invariant
                r@ == r0,
                k <= r0.len(),
                ins_pos(r0, e) == ins_pos(r0.take(k as int), e),
            decreases k,
        {
            assert(r0.take(k as int).drop_last() =~= r0.take(k - 1));
            k = k - 1;
        }
        proof {
            if k > 0 {
                assert(r0.take(k as int).last() == r0[k - 1]);
            }
            lemma_ins_by_line(r0, e);
            lemma_ins_sorted(r0, e);
        }
        r.insert(k, e);
        proof {
            assert(v@.take(i + 1).drop_last() =~= v@.take(i as int));
            assert(v@.take(i + 1).last() == e);
            assert(v@.take(i + 1) =~= v@.take(i as int).push(e));
            let r1 = r@;
            assert(r1.remove(k as int) =~= r0);
            r1.to_multiset_ensures();
            v@.take(i as int).to_multiset_ensures();
            assert(r1[k as int] == e);
            assert(r1.contains(e));
            assert(r1.to_multiset().remove(e) == r0.to_multiset());
            assert(r1.to_multiset().count(e) > 0);
            assert(r1.to_multiset() =~= r0.to_multiset().insert(e));
            assert(r@.to_multiset() =~= v@.take(i + 1).to_multiset());
        }
        i = i + 1;
    }
    assert(v@.take(v@.len() as int) =~= v@);
    r
}

/// `e` placed into `s` after every view whose line is not greater.
pub open spec fn ins_view(s: Seq<(Seq<char>, int, Seq<char>)>, e: (Seq<char>, int, Seq<char>)) -> Seq<(Seq<char>, int, Seq<char>)>
    decreases s.len(),
{
    if s.len() == 0 {
        seq![e]
    } else if s.last().1 <= e.1 {
        s.push(e)
    } else {
        ins_view(s.drop_last(), e).push(s.last())
    }
}

/// Views ordered by line, views on the same line in their first order.
pub open spec fn sort_views(s: Seq<(Seq<char>, int, Seq<char>)>) -> Seq<(Seq<char>, int, Seq<char>)>
    decreases s.len(),
{
    if s.len() == 0 {
        s
    } else {
        ins_view(sort_views(s.drop_last()), s.last())
    }
}

/// Sorting entries and taking views commute.
pub proof fn lemma_sort_views(v: Seq<SliceEntry>)
    ensures
        entry_views(sort_by_line_spec(v)) == sort_views(entry_views(v)),
    decreases v.len(),
{
    if v.len() > 0 {
        lemma_sort_views(v.drop_last());
        assert(entry_views(v).drop_last() =~= entry_views(v.drop_last()));
        lemma_ins_views(sort_by_line_spec(v.drop_last()), v.last());
    }
}

proof fn lemma_ins_views(s: Seq<SliceEntry>, e: SliceEntry)
    ensures
        entry_views(ins_by_line(s, e)) == ins_view(entry_views(s), entry_view(e)),
    decreases s.len(),
{
    if s.len() == 0 {
        assert(entry_views(seq![e]) =~= seq![entry_view(e)]);
    } else {
        assert(entry_views(s).drop_last() =~= entry_views(s.drop_last()));
        assert(entry_views(s).last() == entry_view(s.last()));
        if s.last().line <= e.line {
            lemma_entries_push(s, e);
        } else {
            lemma_ins_views(s.drop_last(), e);
            lemma_entries_push(ins_by_line(s.drop_last(), e), s.last());
        }
    }
}

} // verus!
