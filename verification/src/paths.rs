//! File paths as `/`-separated text, read component by component.
//!
//! A path's components are its non-empty pieces between separators, with
//! `.` pieces left out; a path that starts with `/` has the root, written
//! `/`, as its first component, and one whose first piece is `.` keeps that
//! `.` as its first component (as `std::path::Path::components` reads a
//! Unix path).
use vstd::prelude::*;
use crate::text::{
    lemma_views_push, split_on, split_chars, join_with, string_views, str_equal, chars_of, sub_chars, string_of,
    clone_strings, concat, owned,
};

verus! {

broadcast use vstd::string::group_string_axioms;

/// A piece between separators that names a component.
pub open spec fn kept_piece(x: Seq<char>) -> bool {
    x.len() > 0 && x != "."@
}

/// The components of a path.
pub open spec fn components(p: Seq<char>) -> Seq<Seq<char>> {
    let pieces = split_on(p, '/');
    let rest = pieces.filter(|x: Seq<char>| kept_piece(x));
    if p.len() > 0 && p[0] == '/' {
        seq!["/"@] + rest
    } else if pieces.len() > 0 && pieces[0] == "."@ {
        seq!["."@] + rest
    } else {
        rest
    }
}

/// The text of a list of components, separated by `/`.
pub open spec fn path_text(cs: Seq<Seq<char>>) -> Seq<char> {
    if cs.len() > 0 && cs[0] == "/"@ {
        "/"@ + join_with(cs.drop_first(), "/"@)
    } else {
        join_with(cs, "/"@)
    }
}

/// The components of `p` after those of `base`, when `p` starts with all
/// of them (`Path::strip_prefix`).
pub open spec fn relative_components(p: Seq<char>, base: Seq<char>) -> Option<Seq<Seq<char>>> {
    let pc = components(p);
    let bc = components(base);
    if bc.len() <= pc.len() && pc.take(bc.len() as int) == bc {
        Some(pc.skip(bc.len() as int))
    } else {
        None
    }
}

/// The last component, when it names a file or directory
/// (`Path::file_name`).
pub open spec fn file_name_of(cs: Seq<Seq<char>>) -> Option<Seq<char>> {
    if cs.len() > 0 && cs.last() != "/"@ && cs.last() != ".."@ && cs.last() != "."@ {
        Some(cs.last())
    } else {
        None
    }
}

/// The position of the last `.` in `s`.
pub open spec fn last_dot(s: Seq<char>) -> Option<int>
    decreases s.len(),
{
    if s.len() == 0 {
        None
    } else if s.last() == '.' {
        Some(s.len() - 1)
    } else {
        last_dot(s.drop_last())
    }
}

/// The extension of a file name: what follows its last `.`, unless that
/// dot is the name's first character (`Path::extension`).
pub open spec fn extension_of_name(name: Seq<char>) -> Option<Seq<char>> {
    match last_dot(name) {
        Some(d) => if d > 0 { Some(name.skip(d + 1)) } else { None },
        None => None,
    }
}

/// The stem of a file name: what precedes the extension (`Path::file_stem`).
pub open spec fn stem_of_name(name: Seq<char>) -> Seq<char> {
    match last_dot(name) {
        Some(d) => if d > 0 { name.take(d) } else { name },
        None => name,
    }
}

/// The extension of a path's file name, or the empty text.
pub open spec fn extension_or_empty(cs: Seq<Seq<char>>) -> Seq<char> {
    match file_name_of(cs) {
        Some(n) => match extension_of_name(n) {
            Some(e) => e,
            None => Seq::empty(),
        },
        None => Seq::empty(),
    }
}

/// The stem of a path's file name, or the empty text.
pub open spec fn stem_or_empty(cs: Seq<Seq<char>>) -> Seq<char> {
    match file_name_of(cs) {
        Some(n) => stem_of_name(n),
        None => Seq::empty(),
    }
}

/// The components of a path.
pub fn path_components(p: &str) -> (r: Vec<String>)
    ensures
        string_views(r@) == components(p@),
{
    let pieces = split_chars(p, '/');
    let ghost pv = split_on(p@, '/');
    let ghost pred = |x: Seq<char>| kept_piece(x);
    let mut r: Vec<String> = Vec::new();
    let v = chars_of(p);
    let rooted = v.len() > 0 && v[0] == '/';
    let dotted = !rooted && pieces.len() > 0 && str_equal(pieces[0].as_str(), ".");
    if rooted {
        r.push("/".to_string());
    } else if dotted {
        r.push(".".to_string());
    }
    proof {
        if pieces@.len() > 0 {
            assert(pv[0] == pieces@[0]@);
        }
    }
    let ghost head: Seq<Seq<char>> = if rooted { seq!["/"@] } else if dotted { seq!["."@] } else { Seq::empty() };
    assert(string_views(r@) =~= head + pv.take(0).filter(pred)) by {
        assert(pv.take(0) =~= Seq::<Seq<char>>::empty());
        reveal(Seq::filter);
    }
    let mut k: usize = 0;
    while k < pieces.len()
        invariant
            string_views(pieces@) == pv,
            pv == split_on(p@, '/'),
            pred == (|x: Seq<char>| kept_piece(x)),
            k <= pieces@.len(),
            string_views(r@) == head + pv.take(k as int).filter(pred),
        decreases pieces@.len() - k,
    {
        let piece = &pieces[k];
        let ghost before = r@;
        proof {
            assert(pv.take(k + 1) =~= pv.take(k as int).push(pv[k as int]));
            pv.take(k as int).lemma_filter_push(pv[k as int], pred);
            assert(pv[k as int] == piece@);
        }
        if !piece.as_str().is_empty() && !str_equal(piece.as_str(), ".") {
            assert(pred(piece@));
            let x = piece.clone();
            r.push(x);
            proof {
                lemma_views_push(before, x);
                assert(head + pv.take(k + 1).filter(pred) =~= (head + pv.take(k as int).filter(pred)).push(piece@));
            }
        } else {
            assert(string_views(r@) =~= head + pv.take(k + 1).filter(pred));
        }
        k = k + 1;
    }
    assert(pv.take(pieces@.len() as int) =~= pv);
    r
}

/// The components of `p` after those of `base`, when `p` starts with them.
pub fn strip_prefix_components(p: &str, base: &str) -> (r: Option<Vec<String>>)
    ensures
        match r {
            Some(v) => relative_components(p@, base@) == Some(string_views(v@)),
            None => relative_components(p@, base@) is None,
        },
{
    let pc = path_components(p);
    let bc = path_components(base);
    let ghost ps = string_views(pc@);
    let ghost bs = string_views(bc@);
    assert(bs.len() == bc@.len() && ps.len() == pc@.len());
    if bc.len() > pc.len() {
        return None;
    }
    let mut k: usize = 0;
    while k < bc.len()
        invariant
            ps == string_views(pc@),
            bs == string_views(bc@),
            ps == components(p@),
            bs == components(base@),
            bc@.len() <= pc@.len(),
            k <= bc@.len(),
            forall|m: int| 0 <= m < k ==> ps[m] == bs[m],
        decreases bc@.len() - k,
    {
        if !str_equal(pc[k].as_str(), bc[k].as_str()) {
            assert(ps.take(bs.len() as int)[k as int] != bs[k as int]);
            assert(ps.take(bs.len() as int) != bs);
            return None;
        }
        k = k + 1;
    }
    assert(ps.take(bs.len() as int) =~= bs);
    let mut rest: Vec<String> = Vec::new();
    let mut j: usize = bc.len();
    while j < pc.len()
        invariant
            ps == string_views(pc@),
            bc@.len() <= j <= pc@.len(),
            string_views(rest@) == ps.subrange(bc@.len() as int, j as int),
        decreases pc@.len() - j,
    {
        let ghost before = rest@;
        let x = pc[j].clone();
        assert(x@ == ps[j as int]);
        rest.push(x);
        proof {
            lemma_views_push(before, x);
            assert(ps.subrange(bc@.len() as int, j + 1) =~= ps.subrange(bc@.len() as int, j as int).push(ps[j as int]));
        }
        j = j + 1;
    }
    assert(ps.subrange(bc@.len() as int, pc@.len() as int) =~= ps.skip(bs.len() as int));
    assert(bs.len() == bc@.len());
    assert(relative_components(p@, base@) == Some(ps.skip(bs.len() as int)));
    assert(string_views(rest@) == ps.subrange(bc@.len() as int, pc@.len() as int));
    assert(string_views(rest@) == ps.skip(bs.len() as int));
    Some(rest)
}

/// The text of a list of components.
pub fn components_text(cs: &Vec<String>) -> (r: String)
    ensures
        r@ == path_text(string_views(cs@)),
{
    let ghost s = string_views(cs@);
    if cs.len() > 0 && str_equal(cs[0].as_str(), "/") {
        let mut rest: Vec<String> = Vec::new();
        let mut j: usize = 1;
        while j < cs.len()
            invariant
                s == string_views(cs@),
                1 <= j <= cs@.len(),
                string_views(rest@) == s.subrange(1, j as int),
            decreases cs@.len() - j,
        {
            let ghost before = rest@;
            let x = cs[j].clone();
            rest.push(x);
            proof {
                lemma_views_push(before, x);
                assert(s.subrange(1, j + 1) =~= s.subrange(1, j as int).push(s[j as int]));
            }
            j = j + 1;
        }
        assert(s.subrange(1, cs@.len() as int) =~= s.drop_first());
        concat("/", crate::text::join_strings(&rest, "/").as_str())
    } else {
        crate::text::join_strings(cs, "/")
    }
}

/// The position of the last `.` in `v`.
fn last_dot_in(v: &Vec<char>) -> (r: Option<usize>)
    ensures
        match r {
            Some(d) => last_dot(v@) == Some(d as int) && d < v@.len(),
            None => last_dot(v@) is None,
        },
{
    let mut k: usize = v.len();
    assert(v@.take(k as int) =~= v@);
    while k > 0
        invariant
            k <= v@.len(),
            last_dot(v@) == last_dot(v@.take(k as int)),
        decreases k,
    {
        assert(v@.take(k as int).last() == v@[k - 1]);
        if v[k - 1] == '.' {
            return Some(k - 1);
        }
        assert(v@.take(k as int).drop_last() =~= v@.take(k - 1));
        k = k - 1;
    }
    None
}

/// The file name of a path given by its components.
pub fn file_name(cs: &Vec<String>) -> (r: Option<String>)
    ensures
        match r {
            Some(n) => file_name_of(string_views(cs@)) == Some(n@),
            None => file_name_of(string_views(cs@)) is None,
        },
{
    if cs.len() == 0 {
        return None;
    }
    let last = &cs[cs.len() - 1];
    assert(string_views(cs@).last() == last@);
    if str_equal(last.as_str(), "/") || str_equal(last.as_str(), "..") || str_equal(last.as_str(), ".") {
        None
    } else {
        Some(last.clone())
    }
}

/// The extension of a file name, if it has one.
pub fn extension_of(name: &str) -> (r: Option<String>)
    ensures
        match r {
            Some(e) => extension_of_name(name@) == Some(e@),
            None => extension_of_name(name@) is None,
        },
{
    let v = chars_of(name);
    let n = v.len();
    match last_dot_in(&v) {
        Some(d) => if d > 0 {
            assert(d < n);
            let e = string_of(sub_chars(v.as_slice(), d + 1, v.len()).as_slice());
            assert(v@.subrange(d + 1, v@.len() as int) =~= name@.skip(d + 1));
            Some(e)
        } else {
            None
        },
        None => None,
    }
}

/// The stem of a file name.
pub fn stem_of(name: &str) -> (r: String)
    ensures
        r@ == stem_of_name(name@),
{
    let v = chars_of(name);
    match last_dot_in(&v) {
        Some(d) => if d > 0 {
            let s = string_of(sub_chars(v.as_slice(), 0, d).as_slice());
            assert(v@.subrange(0, d as int) =~= name@.take(d as int));
            s
        } else {
            name.to_string()
        },
        None => name.to_string(),
    }
}

/// The extension of a path's file name, or the empty text.
pub fn extension_or_empty_of(cs: &Vec<String>) -> (r: String)
    ensures
        r@ == extension_or_empty(string_views(cs@)),
{
    match file_name(cs) {
        Some(n) => match extension_of(n.as_str()) {
            Some(e) => e,
            None => String::new(),
        },
        None => String::new(),
    }
}

/// The stem of a path's file name, or the empty text.
pub fn stem_or_empty_of(cs: &Vec<String>) -> (r: String)
    ensures
        r@ == stem_or_empty(string_views(cs@)),
{
    match file_name(cs) {
        Some(n) => stem_of(n.as_str()),
        None => String::new(),
    }
}

/// `name` joined onto `root` (`Path::join`): `name` itself when it is
/// absolute, else `name` after `root` and a separator, the separator left
/// out when `root` is empty or already ends with one.
pub open spec fn joined(root: Seq<char>, name: Seq<char>) -> Seq<char> {
    if name.len() > 0 && name[0] == '/' {
        name
    } else if root.len() == 0 || root.last() == '/' {
        root + name
    } else {
        root + "/"@ + name
    }
}

/// `name` joined onto `root`.
pub fn join_path(root: &str, name: &str) -> (r: String)
    ensures
        r@ == joined(root@, name@),
{
    let nv = chars_of(name);
    let rv = chars_of(root);
    if nv.len() > 0 && nv[0] == '/' {
        return owned(name);
    }
    if rv.len() == 0 || rv[rv.len() - 1] == '/' {
        concat(root, name)
    } else {
        let with_sep = concat(root, "/");
        concat(with_sep.as_str(), name)
    }
}

} // verus!
