//! Patches, their textual diffs, and the bookkeeping of applied patches.
use vstd::prelude::*;
use crate::text::{
    decimal, decimal_string, join_strings, join_with, owned, split_chars, split_on, starts_with,
    str_equal, str_starts_with, string_views, lemma_split_nonempty, lemma_split_pieces, lemma_split_join,
};

verus! {

broadcast use vstd::string::group_string_axioms;

/// A change to lines `start_line..=end_line` (one-based) of a file.
#[derive(Debug, Clone)]
pub struct Patch {
    pub finding_id: String,
    pub file: String,
    pub start_line: usize,
    pub end_line: usize,
    pub old_text: String,
    pub new_text: String,
}

/// A patch and what became of it.
#[derive(Debug, Clone)]
pub struct PatchRecord {
    pub patch: Patch,
    pub applied: bool,
    pub verified: bool,
}

/// The patches handled so far, oldest first.
#[derive(Debug, Clone)]
pub struct OperationLog {
    pub patches: Vec<PatchRecord>,
}

impl OperationLog {
    pub fn new() -> (r: Self)
        ensures
            r.patches@.len() == 0,
    {
        OperationLog { patches: Vec::new() }
    }

    /// Appends a record of `patch`.
    pub fn record(&mut self, patch: Patch, applied: bool, verified: bool)
        ensures
            final(self).patches@ == old(self).patches@.push(PatchRecord { patch, applied, verified }),
    {
        self.patches.push(PatchRecord { patch, applied, verified });
    }
}

/// The number of lines a patch spans.
pub open spec fn span(p: Patch) -> int {
    p.end_line - p.start_line + 1
}

/// The unified-diff text that shows a patch.
pub open spec fn diff_text(p: Patch) -> Seq<char> {
    "--- a/"@ + p.file@ + "\n+++ b/"@ + p.file@ + "\n@@ -"@ + decimal(p.start_line as nat) + ","@
        + decimal(span(p) as nat) + " +"@ + decimal(p.start_line as nat) + ","@
        + decimal(span(p) as nat) + " @@\n-"@ + p.old_text@ + "\n+"@ + p.new_text@ + "\n"@
}

/// The diff that applying `patch` would make; nothing is written.
pub fn dry_run(patch: &Patch) -> (r: String)
    requires
        patch.start_line <= patch.end_line,
        patch.end_line - patch.start_line < usize::MAX,
    ensures
        r@ == diff_text(*patch),
{
    let count = patch.end_line - patch.start_line + 1;
    let start = decimal_string(patch.start_line);
    let n = decimal_string(count);
    let mut r = "--- a/".to_string();
    r.append(patch.file.as_str());
    r.append("\n+++ b/");
    r.append(patch.file.as_str());
    r.append("\n@@ -");
    r.append(start.as_str());
    r.append(",");
    r.append(n.as_str());
    r.append(" +");
    r.append(start.as_str());
    r.append(",");
    r.append(n.as_str());
    r.append(" @@\n-");
    r.append(patch.old_text.as_str());
    r.append("\n+");
    r.append(patch.new_text.as_str());
    r.append("\n");
    r
}

/// The lines of a file after a patch: the patched lines give way to the
/// new text and, when the range is not empty, one marker line.
pub open spec fn patched_lines(lines: Seq<Seq<char>>, p: Patch) -> Seq<Seq<char>> {
    let before = lines.subrange(0, p.start_line - 1);
    let after = lines.subrange(p.end_line as int, lines.len() as int);
    if p.end_line >= p.start_line {
        before + seq![p.new_text@, "// MODIFIED"@] + after
    } else {
        before + seq![p.new_text@] + after
    }
}

/// What applying a patch to the text `content` gives: the new text, or an
/// error when the lines are out of range or do not hold the old text.
pub open spec fn patch_outcome(content: Seq<char>, p: Patch) -> Result<Seq<char>, Seq<char>> {
    let lines = split_on(content, '\n');
    if p.start_line > lines.len() || p.end_line > lines.len() {
        Err("行号超出范围"@)
    } else {
        let actual = join_with(lines.subrange(p.start_line - 1, p.end_line as int), "\n"@);
        if actual != p.old_text@ {
            Err("内容不匹配: 期望 '"@ + p.old_text@ + "', 实际 '"@ + actual + "'"@)
        } else {
            Ok(join_with(patched_lines(lines, p), "\n"@))
        }
    }
}

/// The inputs on which applying a patch does its work or reports an error
/// (elsewhere the line range would be taken apart the wrong way round).
pub open spec fn patch_applicable(content: Seq<char>, p: Patch) -> bool {
    let n = split_on(content, '\n').len();
    p.start_line > n || p.end_line > n || (1 <= p.start_line && p.start_line <= p.end_line + 1)
}

pub open spec fn result_view(r: Result<String, String>) -> Result<Seq<char>, Seq<char>> {
    match r {
        Ok(s) => Ok(s@),
        Err(e) => Err(e@),
    }
}

/// The copies of `lines[from..to]`.
fn copy_range(lines: &Vec<String>, from: usize, to: usize, out: &mut Vec<String>)
    requires
        from <= to <= lines@.len(),
    ensures
        string_views(final(out)@) == string_views(old(out)@) + string_views(lines@.subrange(from as int, to as int)),
{
    let ghost start = out@;
    let mut k = from;
    while k < to
        invariant
            from <= k <= to <= lines@.len(),
            start == old(out)@,
            out@.len() == start.len() + k - from,
            forall|m: int| 0 <= m < start.len() ==> #[trigger] out@[m]@ == start[m]@,
            forall|m: int| from <= m < k ==> #[trigger] out@[start.len() + m - from]@ == lines@[m]@,
        decreases to - k,
    {
        out.push(owned(lines[k].as_str()));
        k = k + 1;
    }
    assert forall|m: int| start.len() <= m < out@.len() implies
        #[trigger] string_views(out@)[m] == string_views(lines@.subrange(from as int, to as int))[m - start.len()] by {
        assert(out@[start.len() + (m - start.len() + from) - from]@ == lines@[m - start.len() + from]@);
    }
    assert(string_views(out@) =~= string_views(start) + string_views(lines@.subrange(from as int, to as int)));
}

/// Applies a patch to the text of a file, returning the new text.
pub fn patch_content(patch: &Patch, content: &str) -> (r: Result<String, String>)
    requires
        patch_applicable(content@, *patch),
    ensures
        result_view(r) == patch_outcome(content@, *patch),
{
    let lines = split_chars(content, '\n');
    let n = lines.len();
    if patch.start_line > n || patch.end_line > n {
        return Err("行号超出范围".to_string());
    }
    let mut actual_old: Vec<String> = Vec::new();
    copy_range(&lines, patch.start_line - 1, patch.end_line, &mut actual_old);
    let actual_joined = join_strings(&actual_old, "\n");
    assert(string_views(actual_old@) =~= split_on(content@, '\n').subrange(patch.start_line - 1, patch.end_line as int));
    if !str_equal(actual_joined.as_str(), patch.old_text.as_str()) {
        let mut msg = "内容不匹配: 期望 '".to_string();
        msg.append(patch.old_text.as_str());
        msg.append("', 实际 '");
        msg.append(actual_joined.as_str());
        msg.append("'");
        return Err(msg);
    }
    let ghost all = split_on(content@, '\n');
    let ghost before = all.subrange(0, patch.start_line - 1);
    let ghost after = all.subrange(patch.end_line as int, all.len() as int);
    assert(string_views(lines@.subrange(0, patch.start_line - 1)) =~= before);
    assert(string_views(lines@.subrange(patch.end_line as int, n as int)) =~= after);
    let mut new_lines: Vec<String> = Vec::new();
    copy_range(&lines, 0, patch.start_line - 1, &mut new_lines);
    assert(string_views(new_lines@) =~= before);
    new_lines.push(owned(patch.new_text.as_str()));
    assert(string_views(new_lines@) =~= before + seq![patch.new_text@]);
    if patch.end_line >= patch.start_line {
        new_lines.push("// MODIFIED".to_string());
        assert(string_views(new_lines@) =~= before + seq![patch.new_text@, "// MODIFIED"@]);
    }
    copy_range(&lines, patch.end_line, n, &mut new_lines);
    assert(string_views(new_lines@) =~= patched_lines(all, *patch));
    Ok(join_strings(&new_lines, "\n"))
}

/// A marker line left by a patch becomes a rollback marker.
pub open spec fn rolled_back(line: Seq<char>) -> Seq<char> {
    if starts_with(line, "// MODIFIED"@) {
        "// ROLLED BACK"@
    } else {
        line
    }
}

/// The text of a file with every patch marker line turned into a rollback
/// marker.
pub open spec fn rollback_text(content: Seq<char>) -> Seq<char> {
    join_with(split_on(content, '\n').map_values(|l: Seq<char>| rolled_back(l)), "\n"@)
}

/// Turns the patch markers of a file's text into rollback markers.
pub fn rollback_content(content: &str) -> (r: String)
    ensures
        r@ == rollback_text(content@),
{
    let lines = split_chars(content, '\n');
    let mut out: Vec<String> = Vec::new();
    let mut k: usize = 0;
    while k < lines.len()
        invariant
            k <= lines@.len(),
            string_views(lines@) == split_on(content@, '\n'),
            out@.len() == k,
            forall|m: int| 0 <= m < k ==> #[trigger] out@[m]@ == rolled_back(lines@[m]@),
        decreases lines@.len() - k,
    {
        if str_starts_with(lines[k].as_str(), "// MODIFIED") {
            out.push("// ROLLED BACK".to_string());
        } else {
            out.push(owned(lines[k].as_str()));
        }
        k = k + 1;
    }
    assert(string_views(out@) =~= split_on(content@, '\n').map_values(|l: Seq<char>| rolled_back(l)));
    join_strings(&out, "\n")
}

/// A rolled-back line holds no newline when the line held none.
proof fn lemma_rolled_back_no_newline(l: Seq<char>)
    requires
        !l.contains('\n'),
    ensures
        !rolled_back(l).contains('\n'),
{
    reveal_strlit("// ROLLED BACK");
    reveal_strlit("// MODIFIED");
    if starts_with(l, "// MODIFIED"@) {
        assert(!"// ROLLED BACK"@.contains('\n')) by {
            if "// ROLLED BACK"@.contains('\n') {
                let i = choose|i: int| 0 <= i < "// ROLLED BACK"@.len() && "// ROLLED BACK"@[i] == '\n';
            }
        }
    }
}

/// The lines of a rolled-back text are the rolled-back lines of the text.
proof fn lemma_rollback_lines(content: Seq<char>)
    ensures
        split_on(rollback_text(content), '\n') == split_on(content, '\n').map_values(|l: Seq<char>| rolled_back(l)),
{
    let ls = split_on(content, '\n');
    let rs = ls.map_values(|l: Seq<char>| rolled_back(l));
    lemma_split_nonempty(content, '\n');
    lemma_split_pieces(content, '\n');
    assert forall|k: int| 0 <= k < rs.len() implies !(#[trigger] rs[k]).contains('\n') by {
        lemma_rolled_back_no_newline(ls[k]);
    }
    assert(seq!['\n'] =~= "\n"@) by {
        reveal_strlit("\n");
    }
    lemma_split_join(rs, '\n');
}

/// Rolling back twice is rolling back once: a rolled-back text has no patch
/// marker left to turn.
pub proof fn lemma_rollback_idempotent(content: Seq<char>)
    ensures
        rollback_text(rollback_text(content)) == rollback_text(content),
{
    reveal_strlit("// ROLLED BACK");
    reveal_strlit("// MODIFIED");
    lemma_rollback_lines(content);
    let rs = split_on(content, '\n').map_values(|l: Seq<char>| rolled_back(l));
    assert(!starts_with("// ROLLED BACK"@, "// MODIFIED"@)) by {
        assert("// ROLLED BACK"@.subrange(0, 11)[3] != "// MODIFIED"@[3]);
    }
    assert(rs.map_values(|l: Seq<char>| rolled_back(l)) =~= rs);
}

/// After a rollback no line of the text starts with a patch marker.
pub proof fn lemma_rollback_clears_markers(content: Seq<char>)
    ensures
        forall|k: int| 0 <= k < split_on(rollback_text(content), '\n').len() ==>
            !starts_with(#[trigger] split_on(rollback_text(content), '\n')[k], "// MODIFIED"@),
{
    reveal_strlit("// ROLLED BACK");
    reveal_strlit("// MODIFIED");
    lemma_rollback_lines(content);
    assert(!starts_with("// ROLLED BACK"@, "// MODIFIED"@)) by {
        assert("// ROLLED BACK"@.subrange(0, 11)[3] != "// MODIFIED"@[3]);
    }
}

} // verus!
