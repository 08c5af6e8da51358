//! Deterministic confidence of a free-text analysis, and the framing of the
//! prompts and replies exchanged with a language model.
use vstd::prelude::*;
use crate::text::{
    chars_of, find_from, first_occurrence, lemma_first_occurrence, lemma_occurrences_bound, occurrences,
    lemma_occurrences_concat,
    starts_with, ends_with, trim, trim_str, str_starts_with, str_ends_with, sub_chars, string_of, concat, owned,
};
use crate::json::{
    json_accepts, json_parse, json_error_text, json_member, json_text, json_read, json_contents, member, text_of,
    JsonContents,
};

verus! {

broadcast use vstd::string::group_string_axioms;

/// The occurrences of all `ps` in `s`, each pattern counted on its own.
pub open spec fn pattern_count(s: Seq<char>, ps: Seq<Seq<char>>) -> nat
    decreases ps.len(),
{
    if ps.len() == 0 {
        0
    } else {
        occurrences(s, ps[0], 0) + pattern_count(s, ps.drop_first())
    }
}

/// The patterns that stand for references to lines.
pub open spec fn line_patterns() -> Seq<Seq<char>> {
    seq!["L"@, "行"@, "line"@]
}

/// The patterns that stand for references to variables.
pub open spec fn variable_patterns() -> Seq<Seq<char>> {
    seq![
        "parts"@, "price"@, "qty"@, "trim"@, "parse"@, "total"@, "sum"@, "v"@, "name"@,
        "threshold"@, "items"@, "item"@,
    ]
}

/// The number of references to lines and variables in `text`.
pub open spec fn evidence_count(text: Seq<char>) -> nat {
    pattern_count(text, line_patterns()) + pattern_count(text, variable_patterns())
}

/// `high` with three references or more, `medium` with one or two, `low`
/// with none.
pub open spec fn confidence_of(text: Seq<char>) -> Seq<char> {
    let total = evidence_count(text);
    if total >= 3 {
        "high"@
    } else if total >= 1 {
        "medium"@
    } else {
        "low"@
    }
}

/// The occurrences of one non-empty pattern in `text`.
fn count_one(text: &Vec<char>, p: &Vec<char>) -> (r: usize)
    requires
        p@.len() > 0,
        text@.len() < usize::MAX,
    ensures
        r == occurrences(text@, p@, 0),
{
    let mut count: usize = 0;
    let mut start: usize = 0;
    proof {
        lemma_occurrences_bound(text@, p@, 0);
    }
    loop
        invariant
            p@.len() > 0,
            text@.len() < usize::MAX,
            start <= text@.len() + 1,
            count + occurrences(text@, p@, start as int) == occurrences(text@, p@, 0),
            occurrences(text@, p@, 0) <= text@.len() + 1,
        decreases text@.len() + 1 - start,
    {
        if start > text.len() {
            return count;
        }
        match find_from(text.as_slice(), p.as_slice(), start) {
            Some(pos) => {
                proof {
                    lemma_first_occurrence(text@, p@, start as int);
                }
                count = count + 1;
                start = pos + p.len();
            },
            None => {
                return count;
            },
        }
    }
}

/// The occurrences of all patterns in `text`, each non-empty pattern
/// counted on its own.
pub fn count_pattern(text: &str, patterns: &[&str]) -> (r: usize)
    requires
        forall|k: int| 0 <= k < patterns@.len() ==> (#[trigger] patterns@[k])@.len() > 0,
        (patterns@.len() + 1) * (text@.len() + 1) <= usize::MAX,
    ensures
        r == pattern_count(text@, patterns@.map_values(|p: &str| p@)),
        r <= patterns@.len() * (text@.len() + 1),
{
    let tv = chars_of(text);
    let ghost ps = patterns@.map_values(|p: &str| p@);
    let mut count: usize = 0;
    let mut k: usize = 0;
    assert(ps.skip(0) =~= ps);
    while k < patterns.len()
        invariant
            k <= patterns@.len(),
            tv@ == text@,
            ps == patterns@.map_values(|p: &str| p@),
            forall|m: int| 0 <= m < patterns@.len() ==> (#[trigger] patterns@[m])@.len() > 0,
            (patterns@.len() + 1) * (text@.len() + 1) <= usize::MAX,
            count + pattern_count(text@, ps.skip(k as int)) == pattern_count(text@, ps),
            count <= k * (text@.len() + 1),
        decreases patterns@.len() - k,
    {
        let pv = chars_of(patterns[k]);
        assert(ps.skip(k as int).drop_first() =~= ps.skip(k + 1));
        assert(ps.skip(k as int)[0] == pv@);
        proof {
            lemma_occurrences_bound(tv@, pv@, 0);
            assert((k + 1) * (text@.len() + 1) <= (patterns@.len() + 1) * (text@.len() + 1)) by (nonlinear_arith)
                requires k < patterns@.len();
            assert((k + 1) * (text@.len() + 1) == k * (text@.len() + 1) + (text@.len() + 1)) by (nonlinear_arith);
        }
        let c = count_one(&tv, &pv);
        count = count + c;
        k = k + 1;
    }
    count
}

/// The confidence of a free-text analysis, computed from how many line and
/// variable references it holds (not from the model's own judgement).
pub fn compute_confidence(text: &str) -> (r: &'static str)
    requires
        text@.len() < usize::MAX / 16,
    ensures
        r@ == confidence_of(text@),
{
    let line_pats: [&str; 3] = ["L", "行", "line"];
    let var_pats: [&str; 12] = [
        "parts", "price", "qty", "trim", "parse", "total", "sum", "v", "name", "threshold",
        "items", "item",
    ];
    proof {
        reveal_strlit("L");
        reveal_strlit("行");
        reveal_strlit("line");
        reveal_strlit("parts");
        reveal_strlit("price");
        reveal_strlit("qty");
        reveal_strlit("trim");
        reveal_strlit("parse");
        reveal_strlit("total");
        reveal_strlit("sum");
        reveal_strlit("v");
        reveal_strlit("name");
        reveal_strlit("threshold");
        reveal_strlit("items");
        reveal_strlit("item");
    }
    assert(line_pats@.map_values(|p: &str| p@) =~= line_patterns());
    assert(var_pats@.map_values(|p: &str| p@) =~= variable_patterns());
    assert(4 * (text@.len() + 1) <= usize::MAX) by (nonlinear_arith)
        requires text@.len() < usize::MAX / 16;
    assert(13 * (text@.len() + 1) <= usize::MAX) by (nonlinear_arith)
        requires text@.len() < usize::MAX / 16;
    assert(15 * (text@.len() + 1) <= usize::MAX) by (nonlinear_arith)
        requires text@.len() < usize::MAX / 16;
    let line_refs = count_pattern(text, line_pats.as_slice());
    let var_refs = count_pattern(text, var_pats.as_slice());
    let total = line_refs + var_refs;
    if total >= 3 {
        "high"
    } else if total >= 1 {
        "medium"
    } else {
        "low"
    }
}

/// Joining two texts keeps the pattern occurrences of each.
proof fn lemma_pattern_count_concat(a: Seq<char>, b: Seq<char>, ps: Seq<Seq<char>>)
    requires
        forall|k: int| 0 <= k < ps.len() ==> (#[trigger] ps[k]).len() > 0,
    ensures
        pattern_count(a, ps) <= pattern_count(a + b, ps),
        pattern_count(b, ps) <= pattern_count(a + b, ps),
    decreases ps.len(),
{
    if ps.len() > 0 {
        lemma_occurrences_concat(a, b, ps[0]);
        assert forall|k: int| 0 <= k < ps.drop_first().len() implies (#[trigger] ps.drop_first()[k]).len() > 0 by {
            assert(ps.drop_first()[k] == ps[k + 1]);
        }
        lemma_pattern_count_concat(a, b, ps.drop_first());
    }
}

/// The rank of a confidence level: `high` above `medium` above `low`.
pub open spec fn confidence_rank(c: Seq<char>) -> int {
    if c == "high"@ {
        2
    } else if c == "medium"@ {
        1
    } else {
        0
    }
}

/// Adding text never lowers the confidence: the confidence of two texts
/// joined is at least that of either, and it is always one of `high`,
/// `medium` and `low`.
pub proof fn lemma_confidence_monotone(a: Seq<char>, b: Seq<char>)
    ensures
        confidence_rank(confidence_of(a + b)) >= confidence_rank(confidence_of(a)),
        confidence_rank(confidence_of(a + b)) >= confidence_rank(confidence_of(b)),
        confidence_of(a) == "high"@ || confidence_of(a) == "medium"@ || confidence_of(a) == "low"@,
{
    reveal_strlit("high");
    reveal_strlit("medium");
    reveal_strlit("low");
    reveal_strlit("L");
    reveal_strlit("行");
    reveal_strlit("line");
    reveal_strlit("parts");
    reveal_strlit("price");
    reveal_strlit("qty");
    reveal_strlit("trim");
    reveal_strlit("parse");
    reveal_strlit("total");
    reveal_strlit("sum");
    reveal_strlit("v");
    reveal_strlit("name");
    reveal_strlit("threshold");
    reveal_strlit("items");
    reveal_strlit("item");
    assert("high"@ != "medium"@ && "high"@ != "low"@ && "medium"@ != "low"@) by {
        assert("high"@.len() != "medium"@.len());
        assert("high"@[0] != "low"@[0]);
        assert("medium"@.len() != "low"@.len());
    }
    let lp = line_patterns();
    let vp = variable_patterns();
    assert forall|k: int| 0 <= k < lp.len() implies (#[trigger] lp[k]).len() > 0 by {}
    assert forall|k: int| 0 <= k < vp.len() implies (#[trigger] vp[k]).len() > 0 by {}
    lemma_pattern_count_concat(a, b, lp);
    lemma_pattern_count_concat(a, b, vp);
}

/// What a language model makes of one finding.
pub struct LlmEnhancement {
    pub priority: String,
    pub explanation: String,
    pub confidence: String,
}

/// An enhancement as plain values.
pub struct EnhancementView {
    pub priority: Seq<char>,
    pub explanation: Seq<char>,
    pub confidence: Seq<char>,
}

impl View for LlmEnhancement {
    type V = EnhancementView;

    open spec fn view(&self) -> EnhancementView {
        EnhancementView {
            priority: self.priority@,
            explanation: self.explanation@,
            confidence: self.confidence@,
        }
    }
}

/// The prompt that asks the model to judge `finding` in `code`, and to
/// answer with a JSON object of a priority, an explanation and a verdict.
pub open spec fn review_prompt_text(code: Seq<char>, finding: Seq<char>) -> Seq<char> {
    "你是一个代码审查助手。分析以下代码和问题，返回 JSON：\n\n代码：\n```\n"@ + code + "\n```\n\n问题："@ + finding
        + "\n\n请按以下 JSON 格式返回：\n{\"priority\": \"high/medium/low\", \"explanation\": \"为什么这是问题（中文）\", \"confidence\": \"confirm/dismiss\"}\n"@
}

/// The prompt that asks the model to judge `finding` in `code`.
pub fn review_prompt(code: &str, finding: &str) -> (r: String)
    ensures
        r@ == review_prompt_text(code@, finding@),
{
    let mut out = "你是一个代码审查助手。分析以下代码和问题，返回 JSON：\n\n代码：\n```\n".to_string();
    out.append(code);
    out.append("\n```\n\n问题：");
    out.append(finding);
    out.append("\n\n请按以下 JSON 格式返回：\n{\"priority\": \"high/medium/low\", \"explanation\": \"为什么这是问题（中文）\", \"confidence\": \"confirm/dismiss\"}\n");
    out
}

/// `s` with every trailing `p` removed, one after the other
/// (`str::trim_end_matches` with a non-empty text).
pub open spec fn strip_suffixes(s: Seq<char>, p: Seq<char>) -> Seq<char>
    decreases s.len(),
{
    if p.len() > 0 && p.len() <= s.len() && ends_with(s, p) {
        strip_suffixes(s.take(s.len() - p.len()), p)
    } else {
        s
    }
}

/// The JSON text in a reply of the model: the reply trimmed, a leading
/// "```json" fence or else a leading "```" fence taken off, and trailing
/// fences and white space removed.
pub open spec fn reply_json_text(content: Seq<char>) -> Seq<char> {
    let t = trim(content);
    let a = if starts_with(t, "```json"@) { t.skip(7) } else { t };
    let b = if starts_with(a, "```"@) { a.skip(3) } else { a };
    trim(strip_suffixes(trim(b), "```"@))
}

/// `s` with every trailing `p` removed.
fn strip_suffixes_of(s: &str, p: &str) -> (r: String)
    requires
        p@.len() > 0,
    ensures
        r@ == strip_suffixes(s@, p@),
{
    let v = chars_of(s);
    let pv = chars_of(p);
    let mut end: usize = v.len();
    assert(s@.take(end as int) =~= s@);
    while end >= pv.len() && crate::text::occurs_at_exec(v.as_slice(), pv.as_slice(), end - pv.len())
        invariant
            v@ == s@,
            pv@ == p@,
            p@.len() > 0,
            end <= v@.len(),
            strip_suffixes(s@, p@) == strip_suffixes(s@.take(end as int), p@),
        decreases end,
    {
        let ghost cur = s@.take(end as int);
        assert(cur.subrange(end - p@.len(), end as int) =~= s@.subrange(end - p@.len(), end as int));
        assert(cur.take(cur.len() - p@.len()) =~= s@.take(end - p@.len()));
        end = end - pv.len();
    }
    proof {
        let cur = s@.take(end as int);
        if end >= pv@.len() {
            assert(cur.subrange(end - p@.len(), end as int) =~= s@.subrange(end - p@.len(), end as int));
        }
    }
    let r = string_of(sub_chars(v.as_slice(), 0, end).as_slice());
    assert(r@ =~= s@.take(end as int));
    r
}

/// `s` without its first `n` characters.
fn skip_chars(s: &str, n: usize) -> (r: String)
    requires
        n <= s@.len(),
    ensures
        r@ == s@.skip(n as int),
{
    let v = chars_of(s);
    let r = string_of(sub_chars(v.as_slice(), n, v.len()).as_slice());
    assert(r@ =~= s@.skip(n as int));
    r
}

/// The JSON text in a reply of the model.
pub fn json_text_of_reply(content: &str) -> (r: String)
    ensures
        r@ == reply_json_text(content@),
{
    proof {
        reveal_strlit("```json");
        reveal_strlit("```");
    }
    let t = trim_str(content);
    let a = if str_starts_with(t.as_str(), "```json") { skip_chars(t.as_str(), 7) } else { t };
    let b = if str_starts_with(a.as_str(), "```") { skip_chars(a.as_str(), 3) } else { a };
    let c = trim_str(b.as_str());
    let d = strip_suffixes_of(c.as_str(), "```");
    trim_str(d.as_str())
}

/// The enhancement that the model's answers give: the priority, the
/// explanation and the verdict it named, `medium`, the empty text and
/// `confirm` where it named none.
pub open spec fn enhancement_of(
    priority: Option<Seq<char>>,
    explanation: Option<Seq<char>>,
    confidence: Option<Seq<char>>,
) -> EnhancementView {
    EnhancementView {
        priority: match priority {
            Some(p) => p,
            None => "medium"@,
        },
        explanation: match explanation {
            Some(e) => e,
            None => Seq::empty(),
        },
        confidence: match confidence {
            Some(c) => c,
            None => "confirm"@,
        },
    }
}

/// The text that an optional string holds.
pub open spec fn opt_text(s: Option<String>) -> Option<Seq<char>> {
    match s {
        Some(x) => Some(x@),
        None => None,
    }
}

/// The enhancement that the model's answers give, with the defaults where
/// it named none.
pub fn enhancement_from_fields(
    priority: Option<String>,
    explanation: Option<String>,
    confidence: Option<String>,
) -> (r: LlmEnhancement)
    ensures
        r@ == enhancement_of(opt_text(priority), opt_text(explanation), opt_text(confidence)),
{
    LlmEnhancement {
        priority: match priority {
            Some(p) => p,
            None => "medium".to_string(),
        },
        explanation: match explanation {
            Some(e) => e,
            None => String::new(),
        },
        confidence: match confidence {
            Some(c) => c,
            None => "confirm".to_string(),
        },
    }
}

/// The enhancement that a reply of the model gives, when the JSON text in it
/// parses: its `priority`, `explanation` and `confidence` strings, with the
/// defaults where one is missing or not a string.
pub open spec fn reply_enhancement(reply: Seq<char>) -> Option<EnhancementView> {
    match json_read(reply_json_text(reply)) {
        Some(c) => Some(enhancement_of(
            text_of(member(c, "priority"@)),
            text_of(member(c, "explanation"@)),
            text_of(member(c, "confidence"@)),
        )),
        None => None,
    }
}

/// The enhancement in the model's reply, given the contents of the reply's
/// choices: the first choice is read, its JSON text taken out and parsed.
/// No choice gives `LLM 返回空响应`; a JSON text that does not parse gives
/// `解析 LLM JSON 失败: {error} (原始响应: {content})`.
pub fn enhancement_from_reply(contents: &Vec<String>) -> (r: Result<LlmEnhancement, String>)
    ensures
        contents@.len() == 0 ==> (r matches Err(m) && m@ == "LLM 返回空响应"@),
        contents@.len() > 0 ==> (r is Ok <==> json_accepts(reply_json_text(contents@[0]@))),
        contents@.len() > 0 ==> (r matches Ok(e) ==> reply_enhancement(contents@[0]@) == Some(e@)),
        contents@.len() > 0 ==> (r matches Err(m) ==> exists|e: Seq<char>|
            m@ == "解析 LLM JSON 失败: "@ + e + " (原始响应: "@ + contents@[0]@ + ")"@),
{
    if contents.len() == 0 {
        return Err("LLM 返回空响应".to_string());
    }
    let content = &contents[0];
    let json = json_text_of_reply(content.as_str());
    match json_parse(json.as_str()) {
        Ok(parsed) => {
            let e = enhancement_from_fields(
                json_text(json_member(&parsed, "priority")),
                json_text(json_member(&parsed, "explanation")),
                json_text(json_member(&parsed, "confidence")),
            );
            Ok(e)
        },
        Err(err) => {
            let et = json_error_text(&err);
            let mut m = "解析 LLM JSON 失败: ".to_string();
            m.append(et.as_str());
            m.append(" (原始响应: ");
            m.append(content.as_str());
            m.append(")");
            Err(m)
        },
    }
}

/// The text at `data.data.apiKey` in the reply of the secret store.
pub open spec fn vault_key(c: JsonContents) -> Option<Seq<char>> {
    text_of(member(member(member(c, "data"@), "data"@), "apiKey"@))
}

/// The API key in the reply of the secret store: the text at
/// `data.data.apiKey`, else `Vault 中未找到 apiKey 字段`.
pub fn api_key_from_vault_reply(body: &serde_json::Value) -> (r: Result<String, String>)
    ensures
        match r {
            Ok(k) => vault_key(json_contents(*body)) == Some(k@),
            Err(m) => vault_key(json_contents(*body)) is None && m@ == "Vault 中未找到 apiKey 字段"@,
        },
{
    match json_text(json_member(json_member(json_member(body, "data"), "data"), "apiKey")) {
        Some(k) => Ok(k),
        None => Err("Vault 中未找到 apiKey 字段".to_string()),
    }
}

} // verus!
