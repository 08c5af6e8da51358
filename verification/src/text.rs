//! Character-level helpers on strings, stated over `Seq<char>`.
use vstd::prelude::*;
use vstd::utf8::{encode_utf8, encode_scalar, has_width_1_encoding, has_width_2_encoding, has_width_3_encoding};

verus! {

broadcast use vstd::string::group_string_axioms;

/// Appends one character to a string (`String::push`).
#[verifier::external_body]
pub(crate) fn push_char(s: &mut String, c: char)
    ensures
        final(s)@ == old(s)@.push(c),
{
    s.push(c);
}

/// Whether two strings hold the same characters.
pub fn str_equal(a: &str, b: &str) -> (r: bool)
    ensures
        r == (a@ == b@),
{
    let av = chars_of(a);
    let bv = chars_of(b);
    if av.len() != bv.len() {
        return false;
    }
    let mut i: usize = 0;
    while i < av.len()
        invariant
            av@ == a@,
            bv@ == b@,
            av@.len() == bv@.len(),
            i <= av@.len(),
            forall|j: int| 0 <= j < i ==> av@[j] == bv@[j],
        decreases av@.len() - i,
    {
        if av[i] != bv[i] {
            return false;
        }
        i = i + 1;
    }
    assert(av@ =~= bv@);
    true
}

/// The characters of a string, in order.
pub fn chars_of(s: &str) -> (v: Vec<char>)
    ensures
        v@ == s@,
{
    let mut v: Vec<char> = Vec::new();
    for c in it: s.chars()
        invariant
            it.seq() == s@,
            v@ == it.seq().take(it.index() as int),
    {
        v.push(c);
    }
    v
}

/// `p` occurs in `s` at position `i`.
pub open spec fn occurs_at(s: Seq<char>, p: Seq<char>, i: int) -> bool {
    0 <= i && i + p.len() <= s.len() && s.subrange(i, i + p.len()) == p
}

pub open spec fn starts_with(s: Seq<char>, p: Seq<char>) -> bool {
    occurs_at(s, p, 0)
}

pub open spec fn ends_with(s: Seq<char>, p: Seq<char>) -> bool {
    occurs_at(s, p, s.len() - p.len())
}

pub open spec fn contains(s: Seq<char>, p: Seq<char>) -> bool {
    exists|i: int| occurs_at(s, p, i)
}

/// Whether `p` occurs in `s` at position `i`.
pub fn occurs_at_exec(s: &[char], p: &[char], i: usize) -> (r: bool)
    ensures
        r == occurs_at(s@, p@, i as int),
{
    if i > s.len() || p.len() > s.len() - i {
        return false;
    }
    let sl = s.len();
    let mut k: usize = 0;
    while k < p.len()
        invariant
            sl == s@.len(),
            i + p@.len() <= s@.len(),
            k <= p@.len(),
            forall|m: int| 0 <= m < k ==> s@[i + m] == p@[m],
        decreases p@.len() - k,
    {
        if s[i + k] != p[k] {
            assert(s@.subrange(i as int, i + p@.len())[k as int] != p@[k as int]);
            return false;
        }
        k = k + 1;
    }
    assert(s@.subrange(i as int, i + p@.len()) =~= p@);
    true
}

/// The first position at or after `from` where `p` occurs in `s`.
pub open spec fn first_occurrence(s: Seq<char>, p: Seq<char>, from: int) -> Option<int>
    decreases s.len() + 1 - from,
{
    if from < 0 || from > s.len() {
        None
    } else if occurs_at(s, p, from) {
        Some(from)
    } else {
        first_occurrence(s, p, from + 1)
    }
}

/// The number of non-overlapping occurrences of a non-empty `p` in `s` at
/// or after `from`, each search resuming where the last occurrence ends.
pub open spec fn occurrences(s: Seq<char>, p: Seq<char>, from: int) -> nat
    decreases s.len() + 1 - from,
{
    if p.len() == 0 || from < 0 || from > s.len() {
        0
    } else {
        match first_occurrence(s, p, from) {
            Some(i) => if i >= from && i + p.len() <= s.len() {
                1 + occurrences(s, p, i + p.len())
            } else {
                0
            },
            None => 0,
        }
    }
}

/// A position that the search finds holds an occurrence at or after `from`.
pub proof fn lemma_first_occurrence(s: Seq<char>, p: Seq<char>, from: int)
    ensures
        first_occurrence(s, p, from) matches Some(i) ==> from <= i && occurs_at(s, p, i),
    decreases s.len() + 1 - from,
{
    if 0 <= from <= s.len() && !occurs_at(s, p, from) {
        lemma_first_occurrence(s, p, from + 1);
    }
}

/// Each occurrence takes at least one character.
pub proof fn lemma_occurrences_bound(s: Seq<char>, p: Seq<char>, from: int)
    requires
        0 <= from,
    ensures
        occurrences(s, p, from) <= s.len() + 1 - from || occurrences(s, p, from) == 0,
    decreases s.len() + 1 - from,
{
    lemma_first_occurrence(s, p, from);
    if p.len() > 0 && from <= s.len() {
        if let Some(i) = first_occurrence(s, p, from) {
            if i >= from && i + p.len() <= s.len() {
                lemma_occurrences_bound(s, p, i + p.len());
            }
        }
    }
}

/// The first position at or after `from` where `p` occurs in `s`.
pub fn find_from(s: &[char], p: &[char], from: usize) -> (r: Option<usize>)
    ensures
        match r {
            Some(i) => first_occurrence(s@, p@, from as int) == Some(i as int),
            None => first_occurrence(s@, p@, from as int) is None,
        },
        r matches Some(i) ==> from <= i && occurs_at(s@, p@, i as int)
            && forall|j: int| from <= j < i ==> !occurs_at(s@, p@, j),
        r is None ==> forall|j: int| from <= j ==> !occurs_at(s@, p@, j),
{
    let sl = s.len();
    if from > sl {
        return None;
    }
    let mut i = from;
    while i < sl
        invariant
            sl == s@.len(),
            from <= i <= sl,
            forall|j: int| from <= j < i ==> !occurs_at(s@, p@, j),
            first_occurrence(s@, p@, from as int) == first_occurrence(s@, p@, i as int),
        decreases sl - i,
    {
        if occurs_at_exec(s, p, i) {
            return Some(i);
        }
        i = i + 1;
    }
    if occurs_at_exec(s, p, sl) {
        return Some(sl);
    }
    assert(first_occurrence(s@, p@, sl + 1) is None);
    assert(first_occurrence(s@, p@, sl as int) is None);
    None
}

/// Whether `p` occurs in `s`.
pub fn contains_exec(s: &[char], p: &[char]) -> (r: bool)
    ensures
        r == contains(s@, p@),
{
    match find_from(s, p, 0) {
        Some(i) => true,
        None => {
            assert forall|j: int| !occurs_at(s@, p@, j) by {
                if j >= 0 {
                }
            }
            false
        },
    }
}

/// Whether the string `s` starts with `p`.
pub fn str_starts_with(s: &str, p: &str) -> (r: bool)
    ensures
        r == starts_with(s@, p@),
{
    let sv = chars_of(s);
    let pv = chars_of(p);
    occurs_at_exec(sv.as_slice(), pv.as_slice(), 0)
}

/// Whether the string `s` ends with `p`.
pub fn str_ends_with(s: &str, p: &str) -> (r: bool)
    ensures
        r == ends_with(s@, p@),
{
    let sv = chars_of(s);
    let pv = chars_of(p);
    if pv.len() > sv.len() {
        return false;
    }
    occurs_at_exec(sv.as_slice(), pv.as_slice(), sv.len() - pv.len())
}

/// Whether the string `s` contains `p`.
pub fn str_contains(s: &str, p: &str) -> (r: bool)
    ensures
        r == contains(s@, p@),
{
    let sv = chars_of(s);
    let pv = chars_of(p);
    contains_exec(sv.as_slice(), pv.as_slice())
}

/// The characters `v[from..to]` as a new vector.
pub fn sub_chars(v: &[char], from: usize, to: usize) -> (r: Vec<char>)
    requires
        from <= to <= v@.len(),
    ensures
        r@ == v@.subrange(from as int, to as int),
{
    let mut r: Vec<char> = Vec::new();
    let mut k = from;
    while k < to
        invariant
            from <= k <= to <= v@.len(),
            r@ == v@.subrange(from as int, k as int),
        decreases to - k,
    {
        r.push(v[k]);
        k = k + 1;
    }
    r
}

/// A string holding the characters of `v`.
pub fn string_of(v: &[char]) -> (s: String)
    ensures
        s@ == v@,
{
    let mut s = String::new();
    let mut k: usize = 0;
    while k < v.len()
        invariant
            k <= v@.len(),
            s@ == v@.subrange(0, k as int),
        decreases v@.len() - k,
    {
        push_char(&mut s, v[k]);
        assert(v@.subrange(0, k + 1) =~= v@.subrange(0, k as int).push(v@[k as int]));
        k = k + 1;
    }
    assert(v@.subrange(0, v@.len() as int) =~= v@);
    s
}

/// An owned copy of a string slice.
pub fn owned(s: &str) -> (r: String)
    ensures
        r@ == s@,
{
    s.to_string()
}

/// The views of a list of strings.
pub open spec fn string_views(v: Seq<String>) -> Seq<Seq<char>> {
    v.map_values(|s: String| s@)
}

/// The views of a list with one more string.
pub proof fn lemma_views_push(v: Seq<String>, x: String)
    ensures
        string_views(v.push(x)) == string_views(v).push(x@),
{
    assert(string_views(v.push(x)) =~= string_views(v).push(x@));
}

/// A copy of a list of strings.
pub fn clone_strings(v: &Vec<String>) -> (r: Vec<String>)
    ensures
        string_views(r@) == string_views(v@),
{
    let mut r: Vec<String> = Vec::new();
    let mut k: usize = 0;
    while k < v.len()
        invariant
            k <= v@.len(),
            r@.len() == k,
            forall|m: int| 0 <= m < k ==> #[trigger] r@[m]@ == v@[m]@,
        decreases v@.len() - k,
    {
        r.push(owned(v[k].as_str()));
        k = k + 1;
    }
    assert(string_views(r@) =~= string_views(v@));
    r
}

/// Whether `name` is among `names`.
pub fn contains_str(names: &Vec<String>, name: &str) -> (r: bool)
    ensures
        r == names@.map_values(|s: String| s@).contains(name@),
{
    let ghost vs = names@.map_values(|s: String| s@);
    let mut k: usize = 0;
    while k < names.len()
        invariant
            k <= names@.len(),
            vs == names@.map_values(|s: String| s@),
            forall|m: int| 0 <= m < k ==> vs[m] != name@,
        decreases names@.len() - k,
    {
        if str_equal(names[k].as_str(), name) {
            assert(vs[k as int] == name@);
            return true;
        }
        k = k + 1;
    }
    false
}

/// The pieces of `s` between the occurrences of `c` (`str::split` with a
/// character): a string without `c` is one piece, and each `c` starts a
/// new, possibly empty, piece.
pub open spec fn split_on(s: Seq<char>, c: char) -> Seq<Seq<char>>
    decreases s.len(),
{
    if s.len() == 0 {
        seq![Seq::empty()]
    } else {
        let prev = split_on(s.drop_last(), c);
        if s.last() == c {
            prev.push(Seq::empty())
        } else {
            prev.update(prev.len() - 1, prev.last().push(s.last()))
        }
    }
}

/// A split always has at least one piece.
pub proof fn lemma_split_nonempty(s: Seq<char>, c: char)
    ensures
        split_on(s, c).len() >= 1,
    decreases s.len(),
{
    if s.len() > 0 {
        lemma_split_nonempty(s.drop_last(), c);
    }
}

/// The pieces joined with `sep` between each two (`[T]::join`).
pub open spec fn join_with(ls: Seq<Seq<char>>, sep: Seq<char>) -> Seq<char>
    decreases ls.len(),
{
    if ls.len() == 0 {
        Seq::empty()
    } else if ls.len() == 1 {
        ls[0]
    } else {
        join_with(ls.drop_last(), sep) + sep + ls.last()
    }
}

/// The pieces of `s` split at `c`.
pub fn split_chars(s: &str, c: char) -> (r: Vec<String>)
    ensures
        string_views(r@) == split_on(s@, c),
{
    let v = chars_of(s);
    let mut lines: Vec<String> = Vec::new();
    let mut cur = String::new();
    let mut k: usize = 0;
    while k < v.len()
        invariant
            k <= v@.len(),
            v@ == s@,
            string_views(lines@).push(cur@) == split_on(v@.subrange(0, k as int), c),
        decreases v@.len() - k,
    {
        let ghost prefix = v@.subrange(0, k + 1);
        assert(prefix.drop_last() =~= v@.subrange(0, k as int));
        assert(prefix.last() == v@[k as int]);
        if v[k] == c {
            lines.push(cur);
            cur = String::new();
            assert(string_views(lines@).push(cur@) =~= split_on(prefix, c));
        } else {
            let ghost old_lines = string_views(lines@);
            push_char(&mut cur, v[k]);
            assert(string_views(lines@).push(cur@) =~= split_on(prefix, c));
        }
        k = k + 1;
    }
    lines.push(cur);
    assert(v@.subrange(0, v@.len() as int) =~= v@);
    lines
}

/// The strings of `ls` joined with `sep` between each two.
pub fn join_strings(ls: &Vec<String>, sep: &str) -> (r: String)
    ensures
        r@ == join_with(string_views(ls@), sep@),
{
    let mut r = String::new();
    let mut k: usize = 0;
    while k < ls.len()
        invariant
            k <= ls@.len(),
            r@ == join_with(string_views(ls@.subrange(0, k as int)), sep@),
        decreases ls@.len() - k,
    {
        let ghost before = string_views(ls@.subrange(0, k as int));
        let ghost after = string_views(ls@.subrange(0, k + 1));
        assert(after.drop_last() =~= before);
        assert(after.last() == ls@[k as int]@);
        if k > 0 {
            r.append(sep);
        }
        r.append(ls[k].as_str());
        k = k + 1;
    }
    assert(ls@.subrange(0, ls@.len() as int) =~= ls@);
    r
}

/// The UTF-8 encoding of a concatenation is the concatenation of the
/// encodings.
pub proof fn lemma_encode_concat(a: Seq<char>, b: Seq<char>)
    ensures
        encode_utf8(a + b) == encode_utf8(a) + encode_utf8(b),
    decreases a.len(),
{
    if a.len() == 0 {
        assert(a + b =~= b);
    } else {
        lemma_encode_concat(a.drop_first(), b);
        assert((a + b).drop_first() =~= a.drop_first() + b);
        assert((a + b)[0] == a[0]);
    }
}

/// The number of bytes in the UTF-8 encoding of `c` (`char::len_utf8`).
pub fn utf8_width(c: char) -> (r: usize)
    ensures
        r == encode_scalar(c as u32).len(),
        1 <= r <= 4,
{
    let v = c as u32;
    if v <= 0x7f {
        assert(has_width_1_encoding(v));
        1
    } else if v <= 0x7ff {
        assert(has_width_2_encoding(v));
        2
    } else if v <= 0xffff {
        assert(has_width_3_encoding(v));
        3
    } else {
        4
    }
}

/// Unicode's `White_Space` characters (`char::is_whitespace`).
pub open spec fn is_ws(c: char) -> bool {
    ||| c == '\t' || c == '\n' || c == '\u{0B}' || c == '\u{0C}' || c == '\r' || c == ' '
    ||| c == '\u{85}' || c == '\u{A0}' || c == '\u{1680}'
    ||| ('\u{2000}' as u32) <= (c as u32) <= ('\u{200A}' as u32)
    ||| c == '\u{2028}' || c == '\u{2029}' || c == '\u{202F}' || c == '\u{205F}' || c == '\u{3000}'
}

/// Whether `c` is a Unicode white-space character.
pub fn is_whitespace(c: char) -> (r: bool)
    ensures
        r == is_ws(c),
{
    let v = c as u32;
    c == '\t' || c == '\n' || c == '\u{0B}' || c == '\u{0C}' || c == '\r' || c == ' '
        || c == '\u{85}' || c == '\u{A0}' || c == '\u{1680}'
        || (0x2000 <= v && v <= 0x200A)
        || c == '\u{2028}' || c == '\u{2029}' || c == '\u{202F}' || c == '\u{205F}' || c == '\u{3000}'
}

/// `s` without its leading white space.
pub open spec fn trim_start(s: Seq<char>) -> Seq<char>
    decreases s.len(),
{
    if s.len() > 0 && is_ws(s[0]) {
        trim_start(s.drop_first())
    } else {
        s
    }
}

/// `s` without its trailing white space.
pub open spec fn trim_end(s: Seq<char>) -> Seq<char>
    decreases s.len(),
{
    if s.len() > 0 && is_ws(s.last()) {
        trim_end(s.drop_last())
    } else {
        s
    }
}

/// `s` without leading and trailing white space (`str::trim`).
pub open spec fn trim(s: Seq<char>) -> Seq<char> {
    trim_end(trim_start(s))
}

/// `s` without leading and trailing white space.
pub fn trim_str(s: &str) -> (r: String)
    ensures
        r@ == trim(s@),
{
    let v = chars_of(s);
    let mut a: usize = 0;
    assert(s@.skip(0) =~= s@);
    while a < v.len() && is_whitespace(v[a])
        invariant
            v@ == s@,
            a <= v@.len(),
            trim_start(s@) == trim_start(s@.skip(a as int)),
        decreases v@.len() - a,
    {
        assert(s@.skip(a as int).drop_first() =~= s@.skip(a + 1));
        a = a + 1;
    }
    assert(trim_start(s@) == s@.skip(a as int)) by {
        assert(s@.skip(a as int).len() == 0 ==> trim_start(s@.skip(a as int)) == s@.skip(a as int));
    }
    let mut b: usize = v.len();
    assert(s@.skip(a as int).take(b - a) =~= s@.skip(a as int));
    while b > a && is_whitespace(v[b - 1])
        invariant
            v@ == s@,
            a <= b <= v@.len(),
            trim(s@) == trim_end(s@.subrange(a as int, b as int)),
        decreases b,
    {
        assert(s@.subrange(a as int, b as int).drop_last() =~= s@.subrange(a as int, b - 1));
        b = b - 1;
    }
    let r = string_of(sub_chars(v.as_slice(), a, b).as_slice());
    r
}

/// The lines of `s` (`str::lines`): the pieces between newlines, a final
/// empty piece left out, and a carriage return that ends a piece followed
/// by a newline removed.
pub open spec fn lines_of(s: Seq<char>) -> Seq<Seq<char>> {
    let pieces = split_on(s, '\n');
    let kept = if pieces.last().len() == 0 { pieces.drop_last() } else { pieces };
    Seq::new(kept.len(), |i: int| if i < pieces.len() - 1 && kept[i].len() > 0 && kept[i].last() == '\r' {
        kept[i].drop_last()
    } else {
        kept[i]
    })
}

/// The lines of `s`.
pub fn lines(s: &str) -> (r: Vec<String>)
    ensures
        string_views(r@) == lines_of(s@),
{
    let pieces = split_chars(s, '\n');
    proof {
        lemma_split_nonempty(s@, '\n');
    }
    let n = pieces.len();
    let kept = if pieces[n - 1].as_str().is_empty() { n - 1 } else { n };
    let mut r: Vec<String> = Vec::new();
    let mut k: usize = 0;
    while k < kept
        invariant
            string_views(pieces@) == split_on(s@, '\n'),
            n == pieces@.len(),
            n >= 1,
            kept as int == (if pieces@[n - 1]@.len() == 0 { n - 1 } else { n as int }),
            k <= kept,
            r@.len() == k,
            forall|m: int| 0 <= m < k ==> #[trigger] r@[m]@ == lines_of(s@)[m],
        decreases kept - k,
    {
        let p = &pieces[k];
        let pv = chars_of(p.as_str());
        assert(split_on(s@, '\n')[k as int] == p@);
        if k + 1 < n && pv.len() > 0 && pv[pv.len() - 1] == '\r' {
            let t = string_of(sub_chars(pv.as_slice(), 0, pv.len() - 1).as_slice());
            assert(t@ =~= p@.drop_last());
            r.push(t);
        } else {
            r.push(p.clone());
        }
        k = k + 1;
    }
    assert(string_views(r@) =~= lines_of(s@));
    r
}

/// The decimal digit for `d < 10`.
pub open spec fn digit_char(d: nat) -> char {
    if d == 0 { '0' } else if d == 1 { '1' } else if d == 2 { '2' } else if d == 3 { '3' }
    else if d == 4 { '4' } else if d == 5 { '5' } else if d == 6 { '6' } else if d == 7 { '7' }
    else if d == 8 { '8' } else { '9' }
}

/// The decimal notation of a natural number, without leading zeros.
pub open spec fn decimal(n: nat) -> Seq<char>
    decreases n,
{
    if n < 10 {
        seq![digit_char(n)]
    } else {
        decimal(n / 10).push(digit_char(n % 10))
    }
}

fn digit(d: usize) -> (c: char)
    requires
        d < 10,
    ensures
        c == digit_char(d as nat),
{
    if d == 0 { '0' } else if d == 1 { '1' } else if d == 2 { '2' } else if d == 3 { '3' }
    else if d == 4 { '4' } else if d == 5 { '5' } else if d == 6 { '6' } else if d == 7 { '7' }
    else if d == 8 { '8' } else { '9' }
}

/// The decimal notation of `n`.
pub fn decimal_string(n: usize) -> (s: String)
    ensures
        s@ == decimal(n as nat),
    decreases n,
{
    if n < 10 {
        let mut s = String::new();
        push_char(&mut s, digit(n));
        s
    } else {
        let mut s = decimal_string(n / 10);
        push_char(&mut s, digit(n % 10));
        s
    }
}

/// Concatenation of two strings into a new one.
pub fn concat(a: &str, b: &str) -> (s: String)
    ensures
        s@ == a@ + b@,
{
    let mut s = a.to_string();
    s.append(b);
    s
}

/// The characters `s[from..to]` as a string.
pub fn substring(s: &str, from: usize, to: usize) -> (r: String)
    requires
        from <= to <= s@.len(),
    ensures
        r@ == s@.subrange(from as int, to as int),
{
    let v = chars_of(s);
    string_of(sub_chars(v.as_slice(), from, to).as_slice())
}

/// A text without `c` is a single piece.
pub proof fn lemma_split_single(s: Seq<char>, c: char)
    requires
        !s.contains(c),
    ensures
        split_on(s, c) == seq![s],
    decreases s.len(),
{
    if s.len() > 0 {
        assert(!s.drop_last().contains(c)) by {
            if s.drop_last().contains(c) {
                let i = choose|i: int| 0 <= i < s.drop_last().len() && s.drop_last()[i] == c;
                assert(s[i] == c);
            }
        }
        lemma_split_single(s.drop_last(), c);
        assert(s.last() != c) by {
            assert(s[s.len() - 1] == s.last());
        }
        assert(s.drop_last().push(s.last()) =~= s);
        assert(split_on(s, c) =~= seq![s]);
    } else {
        assert(s =~= Seq::<char>::empty());
        assert(split_on(s, c) =~= seq![s]);
    }
}

/// Splitting at a separator between `a` and `b` splits each side.
pub proof fn lemma_split_concat(a: Seq<char>, b: Seq<char>, c: char)
    ensures
        split_on(a + seq![c] + b, c) == split_on(a, c) + split_on(b, c),
    decreases b.len(),
{
    lemma_split_nonempty(a, c);
    lemma_split_nonempty(b, c);
    let x = a + seq![c] + b;
    if b.len() == 0 {
        assert(x.drop_last() =~= a);
        assert(split_on(x, c) =~= split_on(a, c) + split_on(b, c));
    } else {
        let b1 = b.drop_last();
        assert(x.drop_last() =~= a + seq![c] + b1);
        assert(x.last() == b.last());
        lemma_split_concat(a, b1, c);
        lemma_split_nonempty(b1, c);
        let pa = split_on(a, c);
        let pb = split_on(b1, c);
        if b.last() == c {
            assert(split_on(x, c) =~= pa + pb.push(Seq::empty()));
        } else {
            let prev = pa + pb;
            assert(prev.update(prev.len() - 1, prev.last().push(b.last()))
                =~= pa + pb.update(pb.len() - 1, pb.last().push(b.last())));
        }
    }
}

/// Joining pieces that hold no `c` with `c` and splitting at `c` gives the
/// pieces back.
pub proof fn lemma_split_join(ls: Seq<Seq<char>>, c: char)
    requires
        ls.len() >= 1,
        forall|k: int| 0 <= k < ls.len() ==> !(#[trigger] ls[k]).contains(c),
    ensures
        split_on(join_with(ls, seq![c]), c) == ls,
    decreases ls.len(),
{
    if ls.len() == 1 {
        lemma_split_single(ls[0], c);
        assert(seq![ls[0]] =~= ls);
    } else {
        let init = ls.drop_last();
        assert forall|k: int| 0 <= k < init.len() implies !(#[trigger] init[k]).contains(c) by {
            assert(init[k] == ls[k]);
        }
        lemma_split_join(init, c);
        assert(!ls[ls.len() - 1].contains(c));
        lemma_split_single(ls.last(), c);
        lemma_split_concat(join_with(init, seq![c]), ls.last(), c);
        assert(init + seq![ls.last()] =~= ls);
    }
}

/// No piece of a split at `c` holds `c`.
pub proof fn lemma_split_pieces(s: Seq<char>, c: char)
    ensures
        forall|k: int| 0 <= k < split_on(s, c).len() ==> !(#[trigger] split_on(s, c)[k]).contains(c),
    decreases s.len(),
{
    if s.len() > 0 {
        lemma_split_pieces(s.drop_last(), c);
        lemma_split_nonempty(s.drop_last(), c);
        let prev = split_on(s.drop_last(), c);
        if s.last() != c {
            let last = prev.last().push(s.last());
            assert(!last.contains(c)) by {
                if last.contains(c) {
                    let i = choose|i: int| 0 <= i < last.len() && last[i] == c;
                    if i < last.len() - 1 {
                        assert(prev.last()[i] == c);
                        assert(prev[prev.len() - 1].contains(c));
                    }
                }
            }
            assert forall|k: int| 0 <= k < split_on(s, c).len() implies !(#[trigger] split_on(s, c)[k]).contains(c) by {
                if k < prev.len() - 1 {
                    assert(split_on(s, c)[k] == prev[k]);
                }
            }
        } else {
            assert forall|k: int| 0 <= k < split_on(s, c).len() implies !(#[trigger] split_on(s, c)[k]).contains(c) by {
                if k < prev.len() {
                    assert(split_on(s, c)[k] == prev[k]);
                } else {
                    assert(split_on(s, c)[k] =~= Seq::<char>::empty());
                }
            }
        }
    }
}

/// An occurrence at `k` is found by a search from any `from` up to `k`, at
/// or before `k`.
pub proof fn lemma_first_occurrence_least(s: Seq<char>, p: Seq<char>, from: int, k: int)
    requires
        0 <= from <= k,
        occurs_at(s, p, k),
    ensures
        first_occurrence(s, p, from) matches Some(i) && from <= i <= k,
    decreases k - from,
{
    if !occurs_at(s, p, from) {
        lemma_first_occurrence_least(s, p, from + 1, k);
    }
}

/// A search that starts later finds no more occurrences.
pub proof fn lemma_occurrences_monotone(s: Seq<char>, p: Seq<char>, x: int, y: int)
    requires
        0 <= x <= y,
        p.len() > 0,
    ensures
        occurrences(s, p, y) <= occurrences(s, p, x),
    decreases s.len() + 1 - x,
{
    if y <= s.len() {
        lemma_first_occurrence(s, p, y);
        if let Some(j) = first_occurrence(s, p, y) {
            lemma_first_occurrence_least(s, p, x, j);
            lemma_first_occurrence(s, p, x);
            let i = first_occurrence(s, p, x)->0;
            if i >= y {
                lemma_first_occurrence_least(s, p, y, i);
            } else {
                lemma_occurrences_monotone(s, p, i + p.len(), j + p.len());
            }
        }
    }
}

/// Text added after `a` takes no occurrence away from `a`.
pub proof fn lemma_occurrences_prefix(a: Seq<char>, b: Seq<char>, p: Seq<char>, from: int)
    requires
        0 <= from <= a.len(),
        p.len() > 0,
    ensures
        occurrences(a, p, from) <= occurrences(a + b, p, from),
    decreases a.len() + 1 - from,
{
    lemma_first_occurrence(a, p, from);
    if let Some(i) = first_occurrence(a, p, from) {
        assert((a + b).subrange(i, i + p.len()) =~= a.subrange(i, i + p.len()));
        lemma_first_occurrence_least(a + b, p, from, i);
        lemma_first_occurrence(a + b, p, from);
        let i2 = first_occurrence(a + b, p, from)->0;
        lemma_occurrences_prefix(a, b, p, i + p.len());
        lemma_occurrences_monotone(a + b, p, i2 + p.len(), i + p.len());
    }
}

/// Searching `a + b` past `a` finds what searching `b` finds, shifted.
pub proof fn lemma_first_occurrence_shift(a: Seq<char>, b: Seq<char>, p: Seq<char>, y: int)
    requires
        0 <= y,
    ensures
        first_occurrence(a + b, p, a.len() + y) == match first_occurrence(b, p, y) {
            Some(j) => Some(j + a.len()),
            None => None,
        },
    decreases b.len() + 1 - y,
{
    if y <= b.len() {
        if y + p.len() <= b.len() {
            assert((a + b).subrange(a.len() + y, a.len() + y + p.len()) =~= b.subrange(y, y + p.len()));
        }
        assert(occurs_at(a + b, p, a.len() + y) == occurs_at(b, p, y));
        if !occurs_at(b, p, y) {
            lemma_first_occurrence_shift(a, b, p, y + 1);
        }
    }
}

/// Counting in `a + b` past `a` counts the occurrences in `b`.
pub proof fn lemma_occurrences_shift(a: Seq<char>, b: Seq<char>, p: Seq<char>, y: int)
    requires
        0 <= y,
        p.len() > 0,
    ensures
        occurrences(a + b, p, a.len() + y) == occurrences(b, p, y),
    decreases b.len() + 1 - y,
{
    if y <= b.len() {
        lemma_first_occurrence_shift(a, b, p, y);
        lemma_first_occurrence(b, p, y);
        if let Some(j) = first_occurrence(b, p, y) {
            lemma_occurrences_shift(a, b, p, j + p.len());
            assert(a.len() + j + p.len() == a.len() + (j + p.len()));
        }
    }
}

/// Joining two texts keeps the occurrences of each.
pub proof fn lemma_occurrences_concat(a: Seq<char>, b: Seq<char>, p: Seq<char>)
    requires
        p.len() > 0,
    ensures
        occurrences(a, p, 0) <= occurrences(a + b, p, 0),
        occurrences(b, p, 0) <= occurrences(a + b, p, 0),
{
    lemma_occurrences_prefix(a, b, p, 0);
    lemma_occurrences_shift(a, b, p, 0);
    lemma_occurrences_monotone(a + b, p, 0, a.len() as int);
}

} // verus!
