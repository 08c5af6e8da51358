//! Unused variables, as the compiler reports them: the lines of
//! `cargo check --message-format=json` read into findings.
use vstd::prelude::*;
use crate::detect::{Finding, FindingView, Severity, views};
use crate::paths::{joined, join_path};
use crate::text::{chars_of, contains_str, lines, lines_of, str_equal, string_views};
use crate::json::{
    json_read, json_parse, json_member, json_text, json_u64, json_elements, json_contents, member, text_of, u64_of,
    first_element, below, JsonContents, JsonStep,
};

verus! {

broadcast use vstd::string::group_string_axioms;

pub const RULE_ID: &'static str = "unused-variable";

pub const DESCRIPTION: &'static str = "未使用变量（通过 rustc/cargo check 检测）";

/// The warning codes that this rule reports.
pub open spec fn reported_code(code: Seq<char>) -> bool {
    code == "unused_variables"@ || code == "unused_mut"@
}

/// What the rule reads of one compiler message: its reason, its level, its
/// warning code, its text, and the file, line and column of its first span
/// (`None` where the message lacks the field, or it is not of the expected
/// kind).
pub struct CompilerMessage {
    pub reason: Option<String>,
    pub level: Option<String>,
    pub code: Option<String>,
    pub text: Option<String>,
    pub file_name: Option<String>,
    pub line_start: Option<u64>,
    pub column_start: Option<u64>,
}

/// A compiler message as plain values.
pub struct CompilerMessageView {
    pub reason: Option<Seq<char>>,
    pub level: Option<Seq<char>>,
    pub code: Option<Seq<char>>,
    pub text: Option<Seq<char>>,
    pub file_name: Option<Seq<char>>,
    pub line_start: Option<u64>,
    pub column_start: Option<u64>,
}

/// The text an optional string holds.
pub open spec fn opt_text(s: Option<String>) -> Option<Seq<char>> {
    match s {
        Some(x) => Some(x@),
        None => None,
    }
}

impl View for CompilerMessage {
    type V = CompilerMessageView;

    open spec fn view(&self) -> CompilerMessageView {
        CompilerMessageView {
            reason: opt_text(self.reason),
            level: opt_text(self.level),
            code: opt_text(self.code),
            text: opt_text(self.text),
            file_name: opt_text(self.file_name),
            line_start: self.line_start,
            column_start: self.column_start,
        }
    }
}

/// What the rule reads of the contents of a compiler message: `reason`,
/// `message.level`, `message.code.code`, `message.message`, and the
/// `file_name`, `line_start` and `column_start` of the first of
/// `message.spans`.
pub open spec fn message_of(c: JsonContents) -> CompilerMessageView {
    let body = member(c, "message"@);
    let span = first_element(member(body, "spans"@));
    CompilerMessageView {
        reason: text_of(member(c, "reason"@)),
        level: text_of(member(body, "level"@)),
        code: text_of(member(member(body, "code"@), "code"@)),
        text: text_of(member(body, "message"@)),
        file_name: match span {
            Some(sp) => text_of(member(sp, "file_name"@)),
            None => None,
        },
        line_start: match span {
            Some(sp) => u64_of(member(sp, "line_start"@)),
            None => None,
        },
        column_start: match span {
            Some(sp) => u64_of(member(sp, "column_start"@)),
            None => None,
        },
    }
}

/// The finding that a compiler message gives, read against `root`: only a
/// warning with a reported code, a text, and a first span with a file name
/// and a line gives one; a missing column counts as 1.
pub open spec fn message_finding(m: CompilerMessageView, root: Seq<char>) -> Option<FindingView> {
    if m.reason == Some("compiler-message"@) && m.level == Some("warning"@) && m.code.is_some()
        && reported_code(m.code.unwrap()) && m.file_name.is_some() && m.line_start.is_some() && m.text.is_some() {
        Some(
            FindingView {
                file_path: joined(root, m.file_name.unwrap()),
                line: (m.line_start.unwrap() as usize) as int,
                column: (match m.column_start {
                    Some(c) => c as usize,
                    None => 1usize,
                }) as int,
                severity: Severity::Should,
                rule_id: RULE_ID@,
                message: m.text.unwrap(),
            },
        )
    } else {
        None
    }
}

/// Whether `s` holds the text `t`.
fn holds_text(s: &Option<String>, t: &str) -> (r: bool)
    ensures
        r == (opt_text(*s) == Some(t@)),
{
    match s {
        Some(x) => str_equal(x.as_str(), t),
        None => false,
    }
}

/// The finding that a compiler message gives, read against `root`.
pub fn finding_from_message(m: &CompilerMessage, root: &str) -> (r: Option<Finding>)
    ensures
        match r {
            Some(f) => message_finding(m@, root@) == Some(f@),
            None => message_finding(m@, root@) is None,
        },
{
    proof {
        reveal_strlit("unused_variables");
        reveal_strlit("unused_mut");
        reveal_strlit("compiler-message");
        reveal_strlit("warning");
    }
    if !holds_text(&m.reason, "compiler-message") || !holds_text(&m.level, "warning") {
        return None;
    }
    let code_ok = holds_text(&m.code, "unused_variables") || holds_text(&m.code, "unused_mut");
    if !code_ok {
        return None;
    }
    let file_name = match &m.file_name {
        Some(f) => f,
        None => return None,
    };
    let line = match m.line_start {
        Some(l) => l as usize,
        None => return None,
    };
    let column = match m.column_start {
        Some(c) => c as usize,
        None => 1usize,
    };
    let text = match &m.text {
        Some(t) => t,
        None => return None,
    };
    Some(Finding {
        file_path: join_path(root, file_name.as_str()),
        line,
        column,
        severity: Severity::Should,
        rule_id: RULE_ID.to_string(),
        message: text.clone(),
    })
}

/// What the rule reads of a parsed compiler message.
fn read_message(msg: &serde_json::Value) -> (r: CompilerMessage)
    ensures
        r@ == message_of(json_contents(*msg)),
{
    let body = json_member(msg, "message");
    let (file_name, line_start, column_start) = match json_elements(json_member(body, "spans")) {
        Some(spans) => if spans.len() > 0 {
            let span = &spans[0];
            assert(json_contents(spans@[0]) == below(member(member(json_contents(*msg), "message"@), "spans"@),
                seq![JsonStep::At(0)]));
            (
                json_text(json_member(span, "file_name")),
                json_u64(json_member(span, "line_start")),
                json_u64(json_member(span, "column_start")),
            )
        } else {
            (None, None, None)
        },
        None => (None, None, None),
    };
    CompilerMessage {
        reason: json_text(json_member(msg, "reason")),
        level: json_text(json_member(body, "level")),
        code: json_text(json_member(json_member(body, "code"), "code")),
        text: json_text(json_member(body, "message")),
        file_name,
        line_start,
        column_start,
    }
}

/// The finding that one line of the compiler's JSON output gives, read
/// against `root`: none for a line that does not start with `{` or is not
/// JSON, else that of the message it holds.
pub open spec fn line_finding(line: Seq<char>, root: Seq<char>) -> Option<FindingView> {
    if !(line.len() > 0 && line[0] == '{') {
        None
    } else {
        match json_read(line) {
            Some(c) => message_finding(message_of(c), root),
            None => None,
        }
    }
}

/// The finding that one line of the compiler's JSON output gives.
pub fn parse_compiler_message(line: &str, root: &str) -> (r: Option<Finding>)
    ensures
        match r {
            Some(f) => line_finding(line@, root@) == Some(f@),
            None => line_finding(line@, root@) is None,
        },
{
    let cs = chars_of(line);
    if cs.len() == 0 || cs[0] != '{' {
        return None;
    }
    let msg = match json_parse(line) {
        Ok(v) => v,
        Err(_) => return None,
    };
    let m = read_message(&msg);
    finding_from_message(&m, root)
}

/// Whether the compiler is to be asked: only when this rule is enabled.
pub fn compiler_check_wanted(enabled_rules: &Vec<String>) -> (r: bool)
    ensures
        r == string_views(enabled_rules@).contains(RULE_ID@),
{
    contains_str(enabled_rules, RULE_ID)
}

/// The findings among some outcomes, in order.
pub open spec fn some_findings(outs: Seq<Option<FindingView>>) -> Seq<FindingView>
    decreases outs.len(),
{
    if outs.len() == 0 {
        Seq::empty()
    } else {
        some_findings(outs.drop_last()) + match outs.last() {
            Some(f) => seq![f],
            None => Seq::empty(),
        }
    }
}

/// The findings that the compiler's JSON output gives, line by line, read
/// against `root`.
pub open spec fn output_findings(output: Seq<char>, root: Seq<char>) -> Seq<FindingView> {
    some_findings(lines_of(output).map_values(|l: Seq<char>| line_finding(l, root)))
}

/// The findings that the compiler's JSON output gives, line by line.
pub fn findings_from_output(output: &str, root: &str) -> (r: Vec<Finding>)
    ensures
        views(r@) == output_findings(output@, root@),
{
    let ls = lines(output);
    let ghost lv = string_views(ls@);
    let ghost g = |l: Seq<char>| line_finding(l, root@);
    let mut out: Vec<Finding> = Vec::new();
    let mut k: usize = 0;
    assert(lv.take(0).map_values(g) =~= Seq::<Option<FindingView>>::empty());
    while k < ls.len()
        invariant
            lv == string_views(ls@),
            lv == lines_of(output@),
            g == (|l: Seq<char>| line_finding(l, root@)),
            k <= ls@.len(),
            views(out@) == some_findings(lv.take(k as int).map_values(g)),
        decreases ls@.len() - k,
    {
        let ghost out0 = out@;
        let r = parse_compiler_message(ls[k].as_str(), root);
        let ghost outs1 = lv.take(k + 1).map_values(g);
        proof {
            assert(lv[k as int] == ls@[k as int]@);
            assert(outs1.drop_last() =~= lv.take(k as int).map_values(g));
            assert(outs1.last() == line_finding(lv[k as int], root@));
        }
        match r {
            Some(f) => {
                let ghost fv = f@;
                out.push(f);
                assert(views(out@) =~= views(out0).push(fv));
                assert(views(out@) =~= some_findings(outs1));
            },
            None => {
                assert(views(out@) =~= some_findings(outs1));
            },
        }
        k = k + 1;
    }
    assert(lv.take(ls@.len() as int) =~= lv);
    out
}

} // verus!
