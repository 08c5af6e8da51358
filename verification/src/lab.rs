//! Helpers of the experiments run against the analyses: module names and
//! declarations read from source files, code context around a line, and
//! the answers of a language model read from their JSON.
use vstd::prelude::*;
use crate::json::{
    json_accepts, json_parse, json_member, json_text, json_elements, json_list_accepts, json_parse_list, json_list_read, values_contents,
    json_error_text, json_read, json_contents, member, top, text_of, first_element, below, JsonLeaf, JsonStep,
};
use crate::llm::{reply_json_text, json_text_of_reply};
use crate::paths::{components, path_text, stem_or_empty, path_components, components_text, stem_or_empty_of};
use crate::detect::depgraph::{replace_char, replace_char_exec};
use crate::text::{
    starts_with, ends_with, trim, lines_of, string_views, decimal,
    str_starts_with, str_ends_with, str_equal, trim_str, lines, chars_of, substring, concat, owned,
    decimal_string, lemma_views_push,
};

verus! {

broadcast use vstd::string::group_string_axioms;

/// The parent of a path (`Path::parent` on Unix), as text: the path
/// without its last component, or the empty text when the path is empty or
/// only a root.
pub open spec fn parent_of_path(p: Seq<char>) -> Seq<char> {
    let cs = components(p);
    if cs.len() > 0 && cs.last() != "/"@ {
        path_text(cs.drop_last())
    } else {
        Seq::empty()
    }
}

/// The parent of a path, as text.
fn parent_text(p: &str) -> (r: String)
    ensures
        r@ == parent_of_path(p@),
{
    let mut cs = path_components(p);
    proof {
        reveal_strlit("/");
    }
    if cs.len() > 0 && !str_equal(cs[cs.len() - 1].as_str(), "/") {
        let ghost before = string_views(cs@);
        assert(before.last() == cs@[cs@.len() - 1]@);
        cs.pop();
        assert(string_views(cs@) =~= before.drop_last());
        components_text(&cs)
    } else {
        String::new()
    }
}

/// The module that a source file under `src/` declares: a file directly
/// in `src` is the module of its stem; a deeper one is its directories
/// below `src`, joined with `::`, then its stem; any other path is itself.
pub open spec fn module_of_path(p: Seq<char>) -> Seq<char> {
    let stem = stem_or_empty(components(p));
    let parent = parent_of_path(p);
    if parent == "src"@ {
        stem
    } else if starts_with(parent, "src/"@) {
        replace_char(parent.skip(4), '/', "::"@) + "::"@ + stem
    } else {
        p
    }
}

/// The module that a source file under `src/` declares.
pub fn file_to_module(path: &str) -> (r: String)
    ensures
        r@ == module_of_path(path@),
{
    proof {
        reveal_strlit("src");
        reveal_strlit("src/");
        reveal_strlit("::");
    }
    let cs = path_components(path);
    let stem = stem_or_empty_of(&cs);
    let parent = parent_text(path);
    if str_equal(parent.as_str(), "src") {
        stem
    } else if str_starts_with(parent.as_str(), "src/") {
        let rest = substring(parent.as_str(), 4, chars_of(parent.as_str()).len());
        assert(rest@ =~= parent@.skip(4));
        let dirs = replace_char_exec(rest.as_str(), '/', "::");
        let with_sep = concat(dirs.as_str(), "::");
        concat(with_sep.as_str(), stem.as_str())
    } else {
        owned(path)
    }
}

/// `l` between its first `a` and its last `b` characters.
pub open spec fn inner(l: Seq<char>, a: int, b: int) -> Seq<char> {
    l.subrange(a, l.len() - b)
}

/// The submodule that a trimmed line declares: `mod name;` with no `{` in
/// the name.
pub open spec fn line_submodules(l: Seq<char>) -> Seq<Seq<char>> {
    if starts_with(l, "mod "@) && ends_with(l, ";"@) && !trim(inner(l, 4, 1)).contains('{') {
        seq![trim(inner(l, 4, 1))]
    } else {
        Seq::empty()
    }
}

/// The path after `crate::` that a trimmed `use` line of `n` leading
/// characters names.
pub open spec fn use_import(l: Seq<char>, lead: Seq<char>) -> Seq<Seq<char>> {
    if starts_with(l, lead) && ends_with(l, ";"@) && starts_with(trim(inner(l, lead.len() as int, 1)), "crate::"@) {
        seq![trim(inner(l, lead.len() as int, 1)).skip(7)]
    } else {
        Seq::empty()
    }
}

/// The crate paths that a trimmed line imports: by `use crate::…;` or by
/// `pub use crate::…;`.
pub open spec fn line_imports(l: Seq<char>) -> Seq<Seq<char>> {
    use_import(l, "use "@) + use_import(l, "pub use "@)
}

/// The imports of some lines, in their order.
pub open spec fn imports_of(ls: Seq<Seq<char>>) -> Seq<Seq<char>>
    decreases ls.len(),
{
    if ls.len() == 0 {
        Seq::empty()
    } else {
        imports_of(ls.drop_last()) + line_imports(trim(ls.last()))
    }
}

/// The submodules of some lines, in their order.
pub open spec fn submodules_of(ls: Seq<Seq<char>>) -> Seq<Seq<char>>
    decreases ls.len(),
{
    if ls.len() == 0 {
        Seq::empty()
    } else {
        submodules_of(ls.drop_last()) + line_submodules(trim(ls.last()))
    }
}

/// The path after `crate::` that the trimmed `use` line `l` names, if it
/// starts with `lead`.
fn use_import_of(l: &str, lead: &str) -> (r: Option<String>)
    requires
        lead@.len() >= 1,
        lead@.last() == ' ',
    ensures
        match r {
            Some(x) => use_import(l@, lead@) == seq![x@],
            None => use_import(l@, lead@) == Seq::<Seq<char>>::empty(),
        },
{
    proof {
        reveal_strlit(";");
        reveal_strlit("crate::");
    }
    if !(str_starts_with(l, lead) && str_ends_with(l, ";")) {
        return None;
    }
    let n = chars_of(l).len();
    let k = chars_of(lead).len();
    assert(l@.subrange(0, k as int) == lead@);
    assert(l@.subrange(0, k as int)[k - 1] == ' ');
    assert(l@.subrange(n - 1, n as int) == ";"@);
    assert(l@.subrange(n - 1, n as int)[0] == ';');
    let p = trim_str(substring(l, k, n - 1).as_str());
    if !str_starts_with(p.as_str(), "crate::") {
        return None;
    }
    let q = substring(p.as_str(), 7, chars_of(p.as_str()).len());
    assert(q@ =~= p@.skip(7));
    Some(q)
}

/// Appends the one text that `s` may hold.
fn push_some(v: &mut Vec<String>, s: Option<String>)
    ensures
        string_views(final(v)@) == string_views(old(v)@) + match s {
            Some(x) => seq![x@],
            None => Seq::<Seq<char>>::empty(),
        },
{
    let ghost before = v@;
    match s {
        Some(x) => {
            let ghost xv = x@;
            v.push(x);
            proof {
                lemma_views_push(before, v@.last());
                assert(string_views(v@) =~= string_views(before) + seq![xv]);
            }
        },
        None => {
            assert(string_views(v@) =~= string_views(before) + Seq::<Seq<char>>::empty());
        },
    }
}

/// The crate paths that a source imports, and the submodules it declares,
/// each in the order of the lines.
pub fn extract_deps(source: &str) -> (r: (Vec<String>, Vec<String>))
    ensures
        string_views(r.0@) == imports_of(lines_of(source@)),
        string_views(r.1@) == submodules_of(lines_of(source@)),
{
    proof {
        reveal_strlit("mod ");
        reveal_strlit(";");
        reveal_strlit("use ");
        reveal_strlit("pub use ");
    }
    let ls = lines(source);
    let ghost lv = string_views(ls@);
    let mut imports: Vec<String> = Vec::new();
    let mut submodules: Vec<String> = Vec::new();
    let mut k: usize = 0;
    assert(lv.take(0) =~= Seq::<Seq<char>>::empty());
    while k < ls.len()
        invariant
            lv == string_views(ls@),
            lv == lines_of(source@),
            k <= ls@.len(),
            string_views(imports@) == imports_of(lv.take(k as int)),
            string_views(submodules@) == submodules_of(lv.take(k as int)),
        decreases ls@.len() - k,
    {
        let line = trim_str(ls[k].as_str());
        proof {
            reveal_strlit("mod ");
            reveal_strlit(";");
            reveal_strlit("use ");
            reveal_strlit("pub use ");
            assert(lv[k as int] == ls@[k as int]@);
            assert(lv.take(k + 1).drop_last() =~= lv.take(k as int));
            assert(lv.take(k + 1).last() == lv[k as int]);
        }
        if str_starts_with(line.as_str(), "mod ") && str_ends_with(line.as_str(), ";") {
            let n = chars_of(line.as_str()).len();
            assert(line@.subrange(0, 4) == "mod "@);
            assert(line@.subrange(0, 4)[3] == ' ');
            assert(line@.subrange(n - 1, n as int) == ";"@);
            assert(line@.subrange(n - 1, n as int)[0] == ';');
            let name = trim_str(substring(line.as_str(), 4, n - 1).as_str());
            let has_brace = contains_char(name.as_str(), '{');
            if !has_brace {
                push_some(&mut submodules, Some(name));
            } else {
                push_some(&mut submodules, None);
            }
        } else {
            push_some(&mut submodules, None);
        }
        let a = use_import_of(line.as_str(), "use ");
        push_some(&mut imports, a);
        let b = use_import_of(line.as_str(), "pub use ");
        push_some(&mut imports, b);
        k = k + 1;
    }
    assert(lv.take(ls@.len() as int) =~= lv);
    (imports, submodules)
}

/// Whether `s` holds the character `c`.
fn contains_char(s: &str, c: char) -> (r: bool)
    ensures
        r == s@.contains(c),
{
    let v = chars_of(s);
    let mut k: usize = 0;
    while k < v.len()
        invariant
            v@ == s@,
            k <= v@.len(),
            forall|m: int| 0 <= m < k ==> v@[m] != c,
        decreases v@.len() - k,
    {
        if v[k] == c {
            assert(s@[k as int] == c);
            return true;
        }
        k = k + 1;
    }
    false
}

/// The first line shown around line `line`: five lines before it, but not
/// before the first.
pub open spec fn context_start(line: int) -> int {
    if line > 5 { line - 5 } else { 1 }
}

/// The last line shown around line `line`: five lines after it, but not
/// after the last of `count`.
pub open spec fn context_end(line: int, count: int) -> int {
    if line + 5 < count { line + 5 } else { count }
}

/// Line `i` of the context, marked with an arrow when it is `line`.
pub open spec fn context_line(ls: Seq<Seq<char>>, line: int, i: int) -> Seq<char> {
    (if i == line { " →"@ } else { "  "@ }) + decimal(i as nat) + ": "@
        + (if 1 <= i <= ls.len() { ls[i - 1] } else { Seq::empty() })
}

/// The context lines from `from` to `to`, each followed by a newline but
/// the last.
pub open spec fn context_from(ls: Seq<Seq<char>>, line: int, from: int, to: int) -> Seq<char>
    decreases to - from,
{
    if from > to {
        Seq::empty()
    } else if from == to {
        context_line(ls, line, from)
    } else {
        context_line(ls, line, from) + "\n"@ + context_from(ls, line, from + 1, to)
    }
}

/// The code around line `line` of `content`: up to five lines on each side,
/// each numbered, the line itself marked with an arrow.
pub open spec fn context_text(content: Seq<char>, line: int) -> Seq<char> {
    let ls = lines_of(content);
    context_from(ls, line, context_start(line), context_end(line, ls.len() as int))
}

proof fn lemma_context_step(ls: Seq<Seq<char>>, line: int, from: int, mid: int, to: int)
    requires
        from <= mid < to,
    ensures
        context_from(ls, line, from, mid + 1) == context_from(ls, line, from, mid) + "\n"@
            + context_line(ls, line, mid + 1),
    decreases mid - from,
{
    if from == mid {
        assert(context_from(ls, line, mid + 1, mid + 1) == context_line(ls, line, mid + 1));
    } else {
        lemma_context_step(ls, line, from + 1, mid, to);
    }
}

/// The code around line `line` of `content`.
pub fn context_lines(content: &str, line: usize) -> (r: String)
    requires
        line + 5 <= usize::MAX,
    ensures
        r@ == context_text(content@, line as int),
{
    proof {
        reveal_strlit(" →");
        reveal_strlit("  ");
        reveal_strlit(": ");
        reveal_strlit("\n");
    }
    let ls = lines(content);
    let ghost lv = string_views(ls@);
    let start: usize = if line > 5 { line - 5 } else { 1 };
    let end: usize = if line + 5 < ls.len() { line + 5 } else { ls.len() };
    let mut out = String::new();
    if start > end {
        return out;
    }
    let mut i: usize = start;
    loop
        invariant_except_break
            i > start ==> out@ == context_from(lv, line as int, start as int, i - 1),
            i == start ==> out@.len() == 0,
        invariant
            lv == string_views(ls@),
            lv == lines_of(content@),
            start == context_start(line as int),
            end == context_end(line as int, lv.len() as int),
            end <= ls@.len(),
            start <= i <= end,
        ensures
            out@ == context_from(lv, line as int, start as int, end as int),
        decreases end - i,
    {
        proof {
            reveal_strlit(" →");
            reveal_strlit("  ");
            reveal_strlit(": ");
            reveal_strlit("\n");
        }
        let ghost before = out@;
        if i > start {
            out.append("\n");
        }
        if i == line {
            out.append(" →");
        } else {
            out.append("  ");
        }
        out.append(decimal_string(i).as_str());
        out.append(": ");
        if 1 <= i && i <= ls.len() {
            out.append(ls[i - 1].as_str());
            assert(lv[i - 1] == ls@[i - 1]@);
        }
        proof {
            if i > start {
                lemma_context_step(lv, line as int, start as int, i - 1, end as int);
                assert(out@ =~= before + "\n"@ + context_line(lv, line as int, i as int));
            } else {
                assert(out@ =~= context_line(lv, line as int, i as int));
            }
        }
        if i == end {
            break;
        }
        i = i + 1;
    }
    out
}

/// The number of issues in an answer of the model: the length of its
/// `issues` array, 0 when it has none or is not JSON.
pub open spec fn issue_count(text: Seq<char>) -> nat {
    match json_read(text) {
        Some(c) => match top(member(c, "issues"@)) {
            JsonLeaf::Array(n) => n,
            _ => 0,
        },
        None => 0,
    }
}

/// The number of issues in the model's answer.
pub fn count_issues(json: &str) -> (r: usize)
    ensures
        r == issue_count(json@),
        !json_accepts(json@) ==> r == 0,
{
    match json_parse(json) {
        Ok(v) => match json_elements(json_member(&v, "issues")) {
            Some(a) => a.len(),
            None => 0,
        },
        Err(_) => 0,
    }
}

/// The content of the first choice of a chat reply: the text at
/// `choices[0].message.content`, or `(parse error)` when the reply is not
/// JSON or holds no such text.
pub open spec fn chat_content(reply: Seq<char>) -> Seq<char> {
    match json_read(reply) {
        Some(c) => match first_element(member(c, "choices"@)) {
            Some(e) => match text_of(member(member(e, "message"@), "content"@)) {
                Some(t) => t,
                None => "(parse error)"@,
            },
            None => "(parse error)"@,
        },
        None => "(parse error)"@,
    }
}

/// The text of the first choice of a chat reply, with its fences taken off.
pub fn chat_reply_content(reply: &str) -> (r: String)
    ensures
        r@ == reply_json_text(chat_content(reply@)),
{
    let content = match json_parse(reply) {
        Ok(v) => match json_elements(json_member(&v, "choices")) {
            Some(cs) => if cs.len() > 0 {
                assert(json_contents(cs@[0]) == below(member(json_contents(v), "choices"@),
                    seq![JsonStep::At(0)]));
                match json_text(json_member(json_member(&cs[0], "message"), "content")) {
                    Some(t) => t,
                    None => "(parse error)".to_string(),
                }
            } else {
                "(parse error)".to_string()
            },
            None => "(parse error)".to_string(),
        },
        Err(_) => "(parse error)".to_string(),
    };
    json_text_of_reply(content.as_str())
}

/// The findings that the review command printed, as JSON values, or
/// `解析 finding 失败: {error}` when its output is not a JSON array.
pub fn review_output(stdout: &[u8]) -> (r: Result<Vec<serde_json::Value>, String>)
    ensures
        r is Ok <==> json_list_accepts(stdout@),
        r matches Ok(vs) ==> json_list_read(stdout@) == Some(values_contents(vs@)),
        r matches Err(m) ==> exists|e: Seq<char>| m@ == "解析 finding 失败: "@ + e,
{
    match json_parse_list(stdout) {
        Ok(v) => Ok(v),
        Err(e) => {
            let mut m = "解析 finding 失败: ".to_string();
            m.append(json_error_text(&e).as_str());
            Err(m)
        },
    }
}

} // verus!
