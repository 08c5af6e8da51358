//! The order of strings (`Ord for str`) and sorted lists of distinct strings.
//!
//! `str` compares its UTF-8 bytes lexicographically; since UTF-8 keeps the
//! order of code points, that is the lexicographic order of the characters,
//! which is how it is stated here.
use vstd::prelude::*;
use crate::text::string_views;

verus! {

broadcast use vstd::string::group_string_axioms;

/// `a` comes strictly before `b`.
pub open spec fn lex_lt(a: Seq<char>, b: Seq<char>) -> bool
    decreases a.len(),
{
    if a.len() == 0 {
        b.len() > 0
    } else if b.len() == 0 {
        false
    } else if a[0] == b[0] {
        lex_lt(a.drop_first(), b.drop_first())
    } else {
        (a[0] as u32) < (b[0] as u32)
    }
}

/// No string comes before itself.
pub proof fn lemma_lex_irreflexive(a: Seq<char>)
    ensures
        !lex_lt(a, a),
    decreases a.len(),
{
    if a.len() > 0 {
        lemma_lex_irreflexive(a.drop_first());
    }
}

/// The order is transitive.
pub proof fn lemma_lex_transitive(a: Seq<char>, b: Seq<char>, c: Seq<char>)
    requires
        lex_lt(a, b),
        lex_lt(b, c),
    ensures
        lex_lt(a, c),
    decreases a.len(),
{
    if a.len() > 0 && b.len() > 0 && c.len() > 0 {
        if a[0] == b[0] && b[0] == c[0] {
            lemma_lex_transitive(a.drop_first(), b.drop_first(), c.drop_first());
        }
    }
}

/// Of two different strings one comes first.
pub proof fn lemma_lex_total(a: Seq<char>, b: Seq<char>)
    requires
        a != b,
    ensures
        lex_lt(a, b) || lex_lt(b, a),
    decreases a.len(),
{
    if a.len() > 0 && b.len() > 0 {
        if a[0] == b[0] {
            if a.drop_first() == b.drop_first() {
                assert(a =~= seq![a[0]] + a.drop_first());
                assert(b =~= seq![b[0]] + b.drop_first());
            }
            lemma_lex_total(a.drop_first(), b.drop_first());
        } else {
            assert((a[0] as u32) != (b[0] as u32)) by {
                vstd::utf8::char_u32_cast(a[0], a[0] as u32);
                vstd::utf8::char_u32_cast(b[0], b[0] as u32);
            }
        }
    } else if a.len() == 0 && b.len() == 0 {
        assert(a =~= b);
    }
}

/// Whether `a` comes strictly before `b`.
pub fn str_less(a: &str, b: &str) -> (r: bool)
    ensures
        r == lex_lt(a@, b@),
{
    let av = crate::text::chars_of(a);
    let bv = crate::text::chars_of(b);
    let mut k: usize = 0;
    assert(a@.skip(0) =~= a@);
    assert(b@.skip(0) =~= b@);
    while k < av.len() && k < bv.len()
        invariant
            av@ == a@,
            bv@ == b@,
            k <= av@.len(),
            k <= bv@.len(),
            av@.take(k as int) == bv@.take(k as int),
            lex_lt(a@, b@) == lex_lt(a@.skip(k as int), b@.skip(k as int)),
        decreases av@.len() - k,
    {
        let x = av[k];
        let y = bv[k];
        assert(a@.skip(k as int)[0] == x);
        assert(b@.skip(k as int)[0] == y);
        if x != y {
            return (x as u32) < (y as u32);
        }
        assert(a@.skip(k as int).drop_first() =~= a@.skip(k + 1));
        assert(b@.skip(k as int).drop_first() =~= b@.skip(k + 1));
        assert(av@.take(k + 1) =~= av@.take(k as int).push(x));
        assert(bv@.take(k + 1) =~= bv@.take(k as int).push(y));
        k = k + 1;
    }
    k < bv.len()
}

/// The strings are in strictly increasing order, so none occurs twice.
pub open spec fn strictly_sorted(s: Seq<Seq<char>>) -> bool {
    forall|i: int, j: int| 0 <= i < j < s.len() ==> lex_lt(#[trigger] s[i], #[trigger] s[j])
}

/// The strings of a set in increasing order, when the set is finite.
pub open spec fn sorted_list(s: Set<Seq<char>>) -> Seq<Seq<char>> {
    choose|l: Seq<Seq<char>>| strictly_sorted(l) && l.to_set() == s
}

/// Two strictly sorted lists with the same strings are the same list.
pub proof fn lemma_sorted_unique(a: Seq<Seq<char>>, b: Seq<Seq<char>>)
    requires
        strictly_sorted(a),
        strictly_sorted(b),
        a.to_set() == b.to_set(),
    ensures
        a == b,
    decreases a.len(),
{
    if a.len() == 0 {
        if b.len() > 0 {
            assert(b.to_set().contains(b[0]));
        }
        assert(a =~= b);
    } else {
        assert(a.to_set().contains(a[0]));
        if b.len() == 0 {
            assert(false);
        }
        assert(b.to_set().contains(b[0]));
        let j = choose|j: int| 0 <= j < b.len() && b[j] == a[0];
        let i = choose|i: int| 0 <= i < a.len() && a[i] == b[0];
        if a[0] != b[0] {
            assert(j > 0 && i > 0);
            assert(lex_lt(b[0], b[j]));
            assert(lex_lt(a[0], a[i]));
            lemma_lex_transitive(a[0], b[0], a[0]);
            lemma_lex_irreflexive(a[0]);
        }
        let ar = a.drop_first();
        let br = b.drop_first();
        assert(strictly_sorted(ar)) by {
            assert forall|x: int, y: int| 0 <= x < y < ar.len() implies lex_lt(#[trigger] ar[x], #[trigger] ar[y]) by {
                assert(ar[x] == a[x + 1] && ar[y] == a[y + 1]);
            }
        }
        assert(strictly_sorted(br)) by {
            assert forall|x: int, y: int| 0 <= x < y < br.len() implies lex_lt(#[trigger] br[x], #[trigger] br[y]) by {
                assert(br[x] == b[x + 1] && br[y] == b[y + 1]);
            }
        }
        assert(ar.to_set() =~= br.to_set()) by {
            assert forall|z: Seq<char>| ar.to_set().contains(z) implies br.to_set().contains(z) by {
                let k = choose|k: int| 0 <= k < ar.len() && ar[k] == z;
                assert(a[k + 1] == z);
                assert(a.to_set().contains(z));
                let m = choose|m: int| 0 <= m < b.len() && b[m] == z;
                assert(lex_lt(a[0], a[k + 1]));
                if m == 0 {
                    lemma_lex_irreflexive(a[0]);
                }
                assert(br[m - 1] == z);
            }
            assert forall|z: Seq<char>| br.to_set().contains(z) implies ar.to_set().contains(z) by {
                let k = choose|k: int| 0 <= k < br.len() && br[k] == z;
                assert(b[k + 1] == z);
                assert(b.to_set().contains(z));
                let m = choose|m: int| 0 <= m < a.len() && a[m] == z;
                assert(lex_lt(b[0], b[k + 1]));
                if m == 0 {
                    lemma_lex_irreflexive(b[0]);
                }
                assert(ar[m - 1] == z);
            }
        }
        lemma_sorted_unique(ar, br);
        assert(a =~= seq![a[0]] + ar);
        assert(b =~= seq![b[0]] + br);
    }
}

/// A strictly sorted list is the sorted list of its strings.
pub proof fn lemma_is_sorted_list(l: Seq<Seq<char>>)
    requires
        strictly_sorted(l),
    ensures
        l == sorted_list(l.to_set()),
{
    let s = l.to_set();
    assert(strictly_sorted(l) && l.to_set() == s);
    let c = sorted_list(s);
    lemma_sorted_unique(l, c);
}

/// The number of leading strings of `l` that come before `x`.
spec fn below(l: Seq<Seq<char>>, x: Seq<char>) -> int
    decreases l.len(),
{
    if l.len() == 0 {
        0
    } else if lex_lt(l[0], x) {
        1 + below(l.drop_first(), x)
    } else {
        0
    }
}

/// In a strictly sorted list without `x`, the strings before position
/// `below(l, x)` come before `x` and the others after it.
proof fn lemma_below(l: Seq<Seq<char>>, x: Seq<char>)
    requires
        strictly_sorted(l),
        !l.contains(x),
    ensures
        0 <= below(l, x) <= l.len(),
        forall|i: int| 0 <= i < below(l, x) ==> lex_lt(#[trigger] l[i], x),
        forall|i: int| below(l, x) <= i < l.len() ==> lex_lt(x, #[trigger] l[i]),
    decreases l.len(),
{
    if l.len() > 0 {
        let r = l.drop_first();
        assert(strictly_sorted(r)) by {
            assert forall|a: int, b: int| 0 <= a < b < r.len() implies lex_lt(#[trigger] r[a], #[trigger] r[b]) by {
                assert(r[a] == l[a + 1] && r[b] == l[b + 1]);
            }
        }
        assert(!r.contains(x)) by {
            if r.contains(x) {
                let j = choose|j: int| 0 <= j < r.len() && r[j] == x;
                assert(l[j + 1] == x);
            }
        }
        lemma_below(r, x);
        if lex_lt(l[0], x) {
            assert forall|i: int| 0 <= i < below(l, x) implies lex_lt(#[trigger] l[i], x) by {
                if i > 0 {
                    assert(l[i] == r[i - 1]);
                }
            }
            assert forall|i: int| below(l, x) <= i < l.len() implies lex_lt(x, #[trigger] l[i]) by {
                assert(l[i] == r[i - 1]);
            }
        } else {
            assert(l[0] != x);
            lemma_lex_total(l[0], x);
            assert forall|i: int| below(l, x) <= i < l.len() implies lex_lt(x, #[trigger] l[i]) by {
                if i > 0 {
                    assert(lex_lt(l[0], l[i]));
                    lemma_lex_transitive(x, l[0], l[i]);
                }
            }
        }
    }
}

/// A finite set of strings has a sorted list.
pub proof fn lemma_sorted_list_exists(s: Set<Seq<char>>)
    requires
        s.finite(),
    ensures
        strictly_sorted(sorted_list(s)),
        sorted_list(s).to_set() == s,
    decreases s.len(),
{
    if s.len() == 0 {
        let l = Seq::<Seq<char>>::empty();
        s.lemma_len0_is_empty();
        assert(l.to_set() =~= s);
        lemma_is_sorted_list(l);
    } else {
        let x = s.choose();
        assert(s.contains(x)) by {
            vstd::set::axiom_set_choose_len(s);
        }
        let t = s.remove(x);
        lemma_sorted_list_exists(t);
        let l = sorted_list(t);
        assert(!l.contains(x)) by {
            if l.contains(x) {
                let j = choose|j: int| 0 <= j < l.len() && l[j] == x;
                assert(l.to_set().contains(x));
            }
        }
        lemma_below(l, x);
        let k = below(l, x);
        let l2 = l.take(k) + seq![x] + l.skip(k);
        assert forall|i: int| 0 <= i < l2.len() implies #[trigger] l2[i] == (if i < k { l[i] } else if i == k { x } else { l[i - 1] }) by {}
        assert(strictly_sorted(l2)) by {
            assert forall|i: int, j: int| 0 <= i < j < l2.len() implies lex_lt(#[trigger] l2[i], #[trigger] l2[j]) by {
                if j < k {
                    assert(lex_lt(l[i], l[j]));
                } else if j == k {
                    assert(lex_lt(l[i], x));
                } else if i < k {
                    assert(lex_lt(l[i], l[j - 1]));
                } else if i == k {
                    assert(lex_lt(x, l[j - 1]));
                } else {
                    assert(lex_lt(l[i - 1], l[j - 1]));
                }
            }
        }
        assert(l2.to_set() =~= s) by {
            assert forall|z: Seq<char>| l2.to_set().contains(z) implies s.contains(z) by {
                let i = choose|i: int| 0 <= i < l2.len() && l2[i] == z;
                if i < k {
                    assert(l.to_set().contains(l[i]));
                } else if i > k {
                    assert(l.to_set().contains(l[i - 1]));
                }
            }
            assert forall|z: Seq<char>| s.contains(z) implies l2.to_set().contains(z) by {
                if z == x {
                    assert(l2[k] == x);
                } else {
                    assert(t.contains(z));
                    assert(l.to_set().contains(z));
                    let i = choose|i: int| 0 <= i < l.len() && l[i] == z;
                    if i < k {
                        assert(l2[i] == z);
                    } else {
                        assert(l2[i + 1] == z);
                    }
                }
            }
        }
        lemma_is_sorted_list(l2);
    }
}

/// The integers are in strictly increasing order.
pub open spec fn increasing(s: Seq<int>) -> bool {
    forall|i: int, j: int| 0 <= i < j < s.len() ==> #[trigger] s[i] < #[trigger] s[j]
}

/// The integers of a finite set in increasing order.
pub open spec fn sorted_ints(s: Set<int>) -> Seq<int> {
    choose|l: Seq<int>| increasing(l) && l.to_set() == s
}

/// Two increasing lists with the same elements are the same list.
pub proof fn lemma_increasing_unique(a: Seq<int>, b: Seq<int>)
    requires
        increasing(a),
        increasing(b),
        a.to_set() == b.to_set(),
    ensures
        a == b,
    decreases a.len(),
{
    if a.len() == 0 {
        if b.len() > 0 {
            assert(b.to_set().contains(b[0]));
        }
        assert(a =~= b);
    } else {
        assert(a.to_set().contains(a[0]));
        if b.len() == 0 {
            assert(false);
        }
        assert(b.to_set().contains(b[0]));
        let j = choose|j: int| 0 <= j < b.len() && b[j] == a[0];
        let i = choose|i: int| 0 <= i < a.len() && a[i] == b[0];
        if a[0] != b[0] {
            assert(j > 0 && i > 0);
            assert(b[0] < b[j]);
            assert(a[0] < a[i]);
        }
        let ar = a.drop_first();
        let br = b.drop_first();
        assert(increasing(ar)) by {
            assert forall|x: int, y: int| 0 <= x < y < ar.len() implies #[trigger] ar[x] < #[trigger] ar[y] by {
                assert(ar[x] == a[x + 1] && ar[y] == a[y + 1]);
            }
        }
        assert(increasing(br)) by {
            assert forall|x: int, y: int| 0 <= x < y < br.len() implies #[trigger] br[x] < #[trigger] br[y] by {
                assert(br[x] == b[x + 1] && br[y] == b[y + 1]);
            }
        }
        assert(ar.to_set() =~= br.to_set()) by {
            assert forall|z: int| ar.to_set().contains(z) implies br.to_set().contains(z) by {
                let k = choose|k: int| 0 <= k < ar.len() && ar[k] == z;
                assert(a[k + 1] == z);
                assert(a.to_set().contains(z));
                let m = choose|m: int| 0 <= m < b.len() && b[m] == z;
                assert(a[0] < a[k + 1]);
                assert(br[m - 1] == z);
            }
            assert forall|z: int| br.to_set().contains(z) implies ar.to_set().contains(z) by {
                let k = choose|k: int| 0 <= k < br.len() && br[k] == z;
                assert(b[k + 1] == z);
                assert(b.to_set().contains(z));
                let m = choose|m: int| 0 <= m < a.len() && a[m] == z;
                assert(b[0] < b[k + 1]);
                assert(ar[m - 1] == z);
            }
        }
        lemma_increasing_unique(ar, br);
        assert(a =~= seq![a[0]] + ar);
        assert(b =~= seq![b[0]] + br);
    }
}

/// An increasing list is the sorted list of its elements.
pub proof fn lemma_is_sorted_ints(l: Seq<int>)
    requires
        increasing(l),
    ensures
        l == sorted_ints(l.to_set()),
{
    let s = l.to_set();
    assert(increasing(l) && l.to_set() == s);
    lemma_increasing_unique(l, sorted_ints(s));
}

/// Inserts `x` into a strictly sorted list, unless it is there already.
pub fn insert_sorted(v: &mut Vec<String>, x: String)
    requires
        strictly_sorted(string_views(old(v)@)),
    ensures
        strictly_sorted(string_views(final(v)@)),
        string_views(final(v)@).to_set() == string_views(old(v)@).to_set().insert(x@),
{
    let ghost s0 = string_views(v@);
    let mut k: usize = 0;
    while k < v.len()
        invariant
            s0 == string_views(v@),
            strictly_sorted(s0),
            k <= v@.len(),
            forall|m: int| 0 <= m < k ==> lex_lt(#[trigger] s0[m], x@),
        ensures
            k <= v@.len(),
            forall|m: int| 0 <= m < k ==> lex_lt(#[trigger] s0[m], x@),
            k < v@.len() ==> !lex_lt(s0[k as int], x@),
        decreases v@.len() - k,
    {
        if !str_less(v[k].as_str(), x.as_str()) {
            break;
        }
        k = k + 1;
    }
    if k < v.len() && crate::text::str_equal(v[k].as_str(), x.as_str()) {
        assert(s0.to_set() =~= s0.to_set().insert(x@)) by {
            assert(s0[k as int] == x@);
        }
        return;
    }
    proof {
        if k < s0.len() {
            assert(!lex_lt(s0[k as int], x@));
            lemma_lex_total(s0[k as int], x@);
        }
    }
    v.insert(k, x);
    let ghost s1 = string_views(v@);
    assert(s1 =~= s0.insert(k as int, x@));
    assert forall|i: int, j: int| 0 <= i < j < s1.len() implies lex_lt(#[trigger] s1[i], #[trigger] s1[j]) by {
        if j < k {
        } else if j == k {
        } else if i < k {
            assert(s1[j] == s0[j - 1]);
            if j - 1 > k {
                assert(lex_lt(s0[k as int], s0[j - 1]));
                lemma_lex_transitive(x@, s0[k as int], s0[j - 1]);
            }
            lemma_lex_transitive(s1[i], x@, s1[j]);
        } else if i == k {
            assert(s1[j] == s0[j - 1]);
            if j - 1 > k {
                lemma_lex_transitive(x@, s0[k as int], s0[j - 1]);
            }
        } else {
            assert(s1[i] == s0[i - 1]);
            assert(s1[j] == s0[j - 1]);
        }
    }
    assert(s1.to_set() =~= s0.to_set().insert(x@)) by {
        assert forall|y: Seq<char>| s1.to_set().contains(y) <==> s0.to_set().insert(x@).contains(y) by {
            if s1.contains(y) {
                let m = choose|m: int| 0 <= m < s1.len() && s1[m] == y;
                if m < k {
                    assert(s0[m] == y);
                } else if m > k {
                    assert(s0[m - 1] == y);
                }
            }
            if s0.contains(y) {
                let m = choose|m: int| 0 <= m < s0.len() && s0[m] == y;
                if m < k {
                    assert(s1[m] == y);
                } else {
                    assert(s1[m + 1] == y);
                }
            }
            if y == x@ {
                assert(s1[k as int] == y);
            }
        }
    }
}

/// The distinct strings of `items`, sorted (a sort followed by `dedup`).
pub fn sorted_distinct(items: &Vec<String>) -> (r: Vec<String>)
    ensures
        strictly_sorted(string_views(r@)),
        string_views(r@).to_set() == string_views(items@).to_set(),
        string_views(r@) == sorted_list(string_views(items@).to_set()),
{
    let mut r: Vec<String> = Vec::new();
    let mut k: usize = 0;
    assert(string_views(items@).take(0).to_set() =~= Set::<Seq<char>>::empty());
    assert(string_views(r@).to_set() =~= Set::<Seq<char>>::empty());
    while k < items.len()
        invariant
            k <= items@.len(),
            strictly_sorted(string_views(r@)),
            string_views(r@).to_set() == string_views(items@).take(k as int).to_set(),
        decreases items@.len() - k,
    {
        let ghost sv = string_views(items@);
        assert(sv.take(k + 1) =~= sv.take(k as int).push(items@[k as int]@));
        assert(sv.take(k + 1).to_set() =~= sv.take(k as int).to_set().insert(items@[k as int]@)) by {
            sv.take(k as int).lemma_push_to_set_commute(items@[k as int]@);
        }
        insert_sorted(&mut r, items[k].clone());
        k = k + 1;
    }
    assert(string_views(items@).take(items@.len() as int) =~= string_views(items@));
    proof {
        lemma_is_sorted_list(string_views(r@));
    }
    r
}

} // verus!
