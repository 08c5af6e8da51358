//! The texts of scan reports: a terminal listing and a status page, both
//! grouped by file in the order of the file names.
use vstd::prelude::*;
use crate::detect::{Finding, Severity, FindingView, views};
use crate::text::{decimal, decimal_string, str_equal, string_views, lemma_views_push};
use crate::order::{sorted_list, sorted_distinct};

verus! {

broadcast use vstd::string::group_string_axioms;

/// The mark of a severity.
pub open spec fn icon(s: Severity) -> Seq<char> {
    match s {
        Severity::Must => "🔴"@,
        Severity::Should => "🟡"@,
        Severity::May => "🔵"@,
    }
}

/// The mark of a severity.
pub fn severity_icon(s: Severity) -> (r: &'static str)
    ensures
        r@ == icon(s),
{
    match s {
        Severity::Must => "🔴",
        Severity::Should => "🟡",
        Severity::May => "🔵",
    }
}

/// The name of a severity in the JSON listing.
pub open spec fn severity_name(s: Severity) -> Seq<char> {
    match s {
        Severity::Must => "must"@,
        Severity::Should => "should"@,
        Severity::May => "may"@,
    }
}

/// The name of a severity in the JSON listing.
pub fn severity_label(s: Severity) -> (r: &'static str)
    ensures
        r@ == severity_name(s),
{
    match s {
        Severity::Must => "must",
        Severity::Should => "should",
        Severity::May => "may",
    }
}

/// The texts one after the other.
pub open spec fn concat_all(s: Seq<Seq<char>>) -> Seq<char>
    decreases s.len(),
{
    if s.len() == 0 {
        Seq::empty()
    } else {
        concat_all(s.drop_last()) + s.last()
    }
}

/// The file paths of the findings, sorted, each once.
pub open spec fn report_files(fs: Seq<FindingView>) -> Seq<Seq<char>> {
    sorted_list(fs.map_values(|f: FindingView| f.file_path).to_set())
}

/// The findings of file `file`, in their order.
pub open spec fn of_file(fs: Seq<FindingView>, file: Seq<char>) -> Seq<FindingView> {
    fs.filter(|f: FindingView| f.file_path == file)
}

/// A finding's line in the terminal listing.
pub open spec fn terminal_line(f: FindingView) -> Seq<char> {
    "  "@ + icon(f.severity) + " "@ + decimal(f.line as nat) + ":"@ + decimal(f.column as nat) + "  "@
        + f.rule_id + "  "@ + f.message + "\n"@
}

/// A file's part of the terminal listing.
pub open spec fn terminal_group(fs: Seq<FindingView>, file: Seq<char>) -> Seq<char> {
    file + ":\n"@ + concat_all(of_file(fs, file).map_values(|f: FindingView| terminal_line(f)))
}

/// The terminal listing: `未发现问题` when there is nothing, else each
/// file followed by its findings.
pub open spec fn terminal_text(fs: Seq<FindingView>) -> Seq<char> {
    if fs.len() == 0 {
        "未发现问题\n"@
    } else {
        concat_all(report_files(fs).map_values(|file: Seq<char>| terminal_group(fs, file)))
    }
}

/// The file paths of the findings, sorted, each once.
fn files_of(findings: &Vec<Finding>) -> (r: Vec<String>)
    ensures
        string_views(r@) == report_files(views(findings@)),
{
    let mut paths: Vec<String> = Vec::new();
    let mut k: usize = 0;
    while k < findings.len()
        invariant
            k <= findings@.len(),
            string_views(paths@) == views(findings@).take(k as int).map_values(|f: FindingView| f.file_path),
        decreases findings@.len() - k,
    {
        let ghost before = paths@;
        let y = findings[k].file_path.clone();
        paths.push(y);
        proof {
            lemma_views_push(before, y);
            assert(views(findings@).take(k + 1).map_values(|f: FindingView| f.file_path)
                =~= views(findings@).take(k as int).map_values(|f: FindingView| f.file_path).push(y@));
        }
        k = k + 1;
    }
    assert(views(findings@).take(findings@.len() as int) =~= views(findings@));
    sorted_distinct(&paths)
}

/// Appends the text of `f`'s line in the terminal listing.
fn push_terminal_line(out: &mut String, f: &Finding)
    ensures
        final(out)@ == old(out)@ + terminal_line(f@),
{
    out.append("  ");
    out.append(severity_icon(f.severity));
    out.append(" ");
    out.append(decimal_string(f.line).as_str());
    out.append(":");
    out.append(decimal_string(f.column).as_str());
    out.append("  ");
    out.append(f.rule_id.as_str());
    out.append("  ");
    out.append(f.message.as_str());
    out.append("\n");
}

/// The lines of `fs` one after the other, in the status page's form when
/// `status` holds and in the terminal listing's form otherwise.
pub open spec fn listing(fs: Seq<FindingView>, status: bool) -> Seq<char> {
    if status {
        concat_all(fs.map_values(|f: FindingView| status_line(f)))
    } else {
        concat_all(fs.map_values(|f: FindingView| terminal_line(f)))
    }
}

proof fn lemma_listing_push(fs: Seq<FindingView>, f: FindingView, status: bool)
    ensures
        listing(fs.push(f), status) == listing(fs, status)
            + (if status { status_line(f) } else { terminal_line(f) }),
{
    let a = fs.push(f).map_values(|f: FindingView| status_line(f));
    let b = fs.push(f).map_values(|f: FindingView| terminal_line(f));
    assert(a.drop_last() =~= fs.map_values(|f: FindingView| status_line(f)));
    assert(b.drop_last() =~= fs.map_values(|f: FindingView| terminal_line(f)));
}

/// Appends the lines of the findings of `file`, in their order.
fn push_file_lines(out: &mut String, findings: &Vec<Finding>, file: &str, status: bool)
    ensures
        final(out)@ == old(out)@ + listing(of_file(views(findings@), file@), status),
{
    let ghost fs = views(findings@);
    let ghost pred = |f: FindingView| f.file_path == file@;
    let ghost start = out@;
    let mut k: usize = 0;
    assert(fs.take(0).filter(pred) =~= Seq::<FindingView>::empty()) by {
        reveal(Seq::filter);
    }
    assert(listing(Seq::<FindingView>::empty(), status) =~= Seq::<char>::empty());
    while k < findings.len()
        invariant
            fs == views(findings@),
            pred == (|f: FindingView| f.file_path == file@),
            k <= findings@.len(),
            out@ == start + listing(fs.take(k as int).filter(pred), status),
        decreases findings@.len() - k,
    {
        let f = &findings[k];
        proof {
            assert(fs[k as int] == f@);
            assert(fs.take(k + 1) =~= fs.take(k as int).push(f@));
            fs.take(k as int).lemma_filter_push(f@, pred);
        }
        if str_equal(f.file_path.as_str(), file) {
            let ghost prev = fs.take(k as int).filter(pred);
            proof {
                lemma_listing_push(prev, f@, status);
            }
            if status {
                push_status_line(out, f);
            } else {
                push_terminal_line(out, f);
            }
        }
        k = k + 1;
    }
    assert(fs.take(findings@.len() as int) =~= fs);
}

/// The terminal listing of `findings`.
pub fn write_terminal(findings: &Vec<Finding>) -> (r: String)
    ensures
        r@ == terminal_text(views(findings@)),
{
    if findings.len() == 0 {
        return "未发现问题\n".to_string();
    }
    let files = files_of(findings);
    let ghost fv = string_views(files@);
    let ghost g = |file: Seq<char>| terminal_group(views(findings@), file);
    let mut out = String::new();
    let mut k: usize = 0;
    assert(fv.take(0).map_values(g) =~= Seq::<Seq<char>>::empty());
    while k < files.len()
        invariant
            fv == string_views(files@),
            fv == report_files(views(findings@)),
            g == (|file: Seq<char>| terminal_group(views(findings@), file)),
            k <= files@.len(),
            out@ == concat_all(fv.take(k as int).map_values(g)),
        decreases files@.len() - k,
    {
        let file = &files[k];
        let ghost before = out@;
        out.append(file.as_str());
        out.append(":\n");
        let ghost mid = out@;
        push_file_lines(&mut out, findings, file.as_str(), false);
        proof {
            let ofs = of_file(views(findings@), file@);
            let lines = ofs.map_values(|f: FindingView| terminal_line(f));
            assert(mid == before + file@ + ":\n"@);
            assert(out@ == mid + concat_all(lines));
            assert(g(file@) == file@ + ":\n"@ + concat_all(lines));
            assert(out@ =~= before + g(file@));
            assert(fv[k as int] == file@);
            assert(fv.take(k + 1).map_values(g) =~= fv.take(k as int).map_values(g).push(g(file@)));
            assert(fv.take(k + 1).map_values(g).drop_last() =~= fv.take(k as int).map_values(g));
        }
        k = k + 1;
    }
    assert(fv.take(files@.len() as int) =~= fv);
    out
}

/// The number of findings of severity `s`.
pub open spec fn count_of(fs: Seq<FindingView>, s: Severity) -> nat {
    fs.filter(|f: FindingView| f.severity == s).len()
}

/// The three severity counts of the status page add up to its total.
pub proof fn lemma_counts_total(fs: Seq<FindingView>)
    ensures
        count_of(fs, Severity::Must) + count_of(fs, Severity::Should) + count_of(fs, Severity::May) == fs.len(),
    decreases fs.len(),
{
    reveal(Seq::filter);
    if fs.len() > 0 {
        lemma_counts_total(fs.drop_last());
    }
}

/// A finding's line on the status page.
pub open spec fn status_line(f: FindingView) -> Seq<char> {
    "  - "@ + icon(f.severity) + " `"@ + f.rule_id + "` "@ + decimal(f.line as nat) + ":"@
        + decimal(f.column as nat) + " — "@ + f.message + "\n"@
}

/// A file's part of the status page.
pub open spec fn status_group(fs: Seq<FindingView>, file: Seq<char>) -> Seq<char> {
    "- **"@ + file + "** ("@ + decimal(of_file(fs, file).len()) + " 项)\n"@
        + concat_all(of_file(fs, file).map_values(|f: FindingView| status_line(f)))
}

/// The status page: a summary table of the counts by severity, and either
/// `✅ 未发现问题` or the findings grouped by file.
pub open spec fn status_text(fs: Seq<FindingView>, timestamp: nat) -> Seq<char> {
    let head = "# Code Scan Status\n\n> 自动生成于 qtcloud-code scan，时间戳: "@ + decimal(timestamp)
        + "\n\n## 汇总\n\n| 严重度 | 数量 |\n|--------|------|\n| Error   | "@ + decimal(count_of(fs, Severity::Must))
        + " |\n| Warning | "@ + decimal(count_of(fs, Severity::Should))
        + " |\n| Info    | "@ + decimal(count_of(fs, Severity::May))
        + " |\n| **Total** | **"@ + decimal(fs.len()) + "** |\n\n"@;
    if fs.len() == 0 {
        head + "✅ 未发现问题\n"@
    } else {
        head + "## 详情\n\n"@ + concat_all(report_files(fs).map_values(|file: Seq<char>| status_group(fs, file)))
    }
}

/// Appends the text of `f`'s line on the status page.
fn push_status_line(out: &mut String, f: &Finding)
    ensures
        final(out)@ == old(out)@ + status_line(f@),
{
    out.append("  - ");
    out.append(severity_icon(f.severity));
    out.append(" `");
    out.append(f.rule_id.as_str());
    out.append("` ");
    out.append(decimal_string(f.line).as_str());
    out.append(":");
    out.append(decimal_string(f.column).as_str());
    out.append(" — ");
    out.append(f.message.as_str());
    out.append("\n");
}

/// The number of findings of severity `s`.
fn count_severity(findings: &Vec<Finding>, s: Severity) -> (r: usize)
    ensures
        r == count_of(views(findings@), s),
{
    let ghost fs = views(findings@);
    let ghost pred = |f: FindingView| f.severity == s;
    let mut n: usize = 0;
    let mut k: usize = 0;
    assert(fs.take(0).filter(pred) =~= Seq::<FindingView>::empty()) by {
        reveal(Seq::filter);
    }
    while k < findings.len()
        invariant
            fs == views(findings@),
            pred == (|f: FindingView| f.severity == s),
            k <= findings@.len(),
            n == fs.take(k as int).filter(pred).len(),
            n <= k,
        decreases findings@.len() - k,
    {
        proof {
            assert(fs.take(k + 1) =~= fs.take(k as int).push(fs[k as int]));
            fs.take(k as int).lemma_filter_push(fs[k as int], pred);
        }
        if findings[k].severity == s {
            n = n + 1;
        }
        k = k + 1;
    }
    assert(fs.take(findings@.len() as int) =~= fs);
    n
}

/// The number of findings of file `file`.
fn count_file(findings: &Vec<Finding>, file: &str) -> (r: usize)
    ensures
        r == of_file(views(findings@), file@).len(),
{
    let ghost fs = views(findings@);
    let ghost pred = |f: FindingView| f.file_path == file@;
    let mut n: usize = 0;
    let mut k: usize = 0;
    assert(fs.take(0).filter(pred) =~= Seq::<FindingView>::empty()) by {
        reveal(Seq::filter);
    }
    while k < findings.len()
        invariant
            fs == views(findings@),
            pred == (|f: FindingView| f.file_path == file@),
            k <= findings@.len(),
            n == fs.take(k as int).filter(pred).len(),
            n <= k,
        decreases findings@.len() - k,
    {
        proof {
            assert(fs.take(k + 1) =~= fs.take(k as int).push(fs[k as int]));
            fs.take(k as int).lemma_filter_push(fs[k as int], pred);
        }
        if str_equal(findings[k].file_path.as_str(), file) {
            n = n + 1;
        }
        k = k + 1;
    }
    assert(fs.take(findings@.len() as int) =~= fs);
    n
}

/// The status page of `findings`, stamped with `timestamp` (seconds since
/// the Unix epoch).
pub fn write_status(findings: &Vec<Finding>, timestamp: usize) -> (r: String)
    ensures
        r@ == status_text(views(findings@), timestamp as nat),
{
    let errors = count_severity(findings, Severity::Must);
    let warnings = count_severity(findings, Severity::Should);
    let infos = count_severity(findings, Severity::May);
    let total = findings.len();
    let mut out = "# Code Scan Status\n\n> 自动生成于 qtcloud-code scan，时间戳: ".to_string();
    out.append(decimal_string(timestamp).as_str());
    out.append("\n\n## 汇总\n\n| 严重度 | 数量 |\n|--------|------|\n| Error   | ");
    out.append(decimal_string(errors).as_str());
    out.append(" |\n| Warning | ");
    out.append(decimal_string(warnings).as_str());
    out.append(" |\n| Info    | ");
    out.append(decimal_string(infos).as_str());
    out.append(" |\n| **Total** | **");
    out.append(decimal_string(total).as_str());
    out.append("** |\n\n");
    if findings.len() == 0 {
        out.append("✅ 未发现问题\n");
        return out;
    }
    out.append("## 详情\n\n");
    let ghost head = out@;
    let files = files_of(findings);
    let ghost fv = string_views(files@);
    let ghost g = |file: Seq<char>| status_group(views(findings@), file);
    let mut k: usize = 0;
    assert(fv.take(0).map_values(g) =~= Seq::<Seq<char>>::empty());
    while k < files.len()
        invariant
            fv == string_views(files@),
            fv == report_files(views(findings@)),
            g == (|file: Seq<char>| status_group(views(findings@), file)),
            k <= files@.len(),
            out@ == head + concat_all(fv.take(k as int).map_values(g)),
        decreases files@.len() - k,
    {
        let file = &files[k];
        let ghost before = out@;
        let n = count_file(findings, file.as_str());
        let count = decimal_string(n);
        out.append("- **");
        out.append(file.as_str());
        out.append("** (");
        out.append(count.as_str());
        out.append(" 项)\n");
        let ghost mid = out@;
        push_file_lines(&mut out, findings, file.as_str(), true);
        proof {
            let ofs = of_file(views(findings@), file@);
            let lines = ofs.map_values(|f: FindingView| status_line(f));
            assert(mid == before + "- **"@ + file@ + "** ("@ + decimal(ofs.len()) + " 项)\n"@);
            assert(out@ == mid + concat_all(lines));
            assert(g(file@) == "- **"@ + file@ + "** ("@ + decimal(ofs.len()) + " 项)\n"@ + concat_all(lines));
            assert(out@ =~= before + g(file@));
            assert(fv[k as int] == file@);
            assert(fv.take(k + 1).map_values(g) =~= fv.take(k as int).map_values(g).push(g(file@)));
            assert(fv.take(k + 1).map_values(g).drop_last() =~= fv.take(k as int).map_values(g));
        }
        k = k + 1;
    }
    assert(fv.take(files@.len() as int) =~= fv);
    out
}

} // verus!
