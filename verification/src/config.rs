//! Project configuration: which rules run and which files are left out.
use vstd::prelude::*;
use crate::text::{
    chars_of, clone_strings, ends_with, occurs_at_exec, owned, starts_with, string_views,
    sub_chars,
};

verus! {

broadcast use vstd::string::group_string_axioms;

/// The `code` section of a project's contract file.
pub struct ContractConfig {
    pub code: Option<CodeConfig>,
}

pub struct CodeConfig {
    pub rules: Option<Vec<String>>,
    pub exclude: Option<Vec<String>>,
}

impl Default for ContractConfig {
    fn default() -> (r: Self)
        ensures
            r.code is None,
    {
        ContractConfig { code: None }
    }
}

impl Default for CodeConfig {
    fn default() -> (r: Self)
        ensures
            r.rules is None,
            r.exclude is None,
    {
        CodeConfig { rules: None, exclude: None }
    }
}

/// Whether the exclusion pattern `p` covers the relative path `file`:
/// a pattern ending in `/` covers the paths below that directory, one
/// starting with `**/` covers the paths that end with the rest of it, and
/// any other covers the path itself and the paths ending in `/` and it.
pub open spec fn pattern_covers(file: Seq<char>, p: Seq<char>) -> bool {
    if ends_with(p, "/"@) {
        starts_with(file, p)
    } else if starts_with(p, "**/"@) {
        ends_with(file, p.skip(3))
    } else {
        file == p || ends_with(file, "/"@ + p)
    }
}

/// The exclusion patterns of a configuration, if it has any.
pub open spec fn exclusions(config: Option<ContractConfig>) -> Option<Seq<Seq<char>>> {
    match config {
        Some(c) => match c.code {
            Some(code) => match code.exclude {
                Some(ex) => Some(string_views(ex@)),
                None => None,
            },
            None => None,
        },
        None => None,
    }
}

/// Whether some exclusion pattern of the configuration covers `file`.
pub open spec fn excluded_by(file: Seq<char>, config: Option<ContractConfig>) -> bool {
    match exclusions(config) {
        Some(ex) => exists|k: int| 0 <= k < ex.len() && pattern_covers(file, #[trigger] ex[k]),
        None => false,
    }
}

/// The rule list of a configuration, if it has one.
pub open spec fn configured_rules(config: Option<ContractConfig>) -> Option<Seq<Seq<char>>> {
    match config {
        Some(c) => match c.code {
            Some(code) => match code.rules {
                Some(rules) => Some(string_views(rules@)),
                None => None,
            },
            None => None,
        },
        None => None,
    }
}

/// Whether one pattern covers a path.
fn pattern_matches(file: &Vec<char>, p: &str) -> (r: bool)
    ensures
        r == pattern_covers(file@, p@),
{
    let pv = chars_of(p);
    let slash: Vec<char> = vec!['/'];
    let globstar: Vec<char> = vec!['*', '*', '/'];
    proof {
        reveal_strlit("/");
        reveal_strlit("**/");
        assert(slash@ == "/"@);
        assert(globstar@ == "**/"@);
    }
    if pv.len() >= 1 && occurs_at_exec(pv.as_slice(), slash.as_slice(), pv.len() - 1) {
        occurs_at_exec(file.as_slice(), pv.as_slice(), 0)
    } else if occurs_at_exec(pv.as_slice(), globstar.as_slice(), 0) {
        let rest = sub_chars(pv.as_slice(), 3, pv.len());
        assert(rest@ == pv@.skip(3));
        rest.len() <= file.len() && occurs_at_exec(file.as_slice(), rest.as_slice(), file.len() - rest.len())
    } else {
        let mut tail: Vec<char> = vec!['/'];
        let mut k: usize = 0;
        while k < pv.len()
            invariant
                k <= pv@.len(),
                tail@ == seq!['/'] + pv@.subrange(0, k as int),
            decreases pv@.len() - k,
        {
            tail.push(pv[k]);
            assert(seq!['/'] + pv@.subrange(0, k + 1) =~= (seq!['/'] + pv@.subrange(0, k as int)).push(pv@[k as int]));
            k = k + 1;
        }
        assert(pv@.subrange(0, pv@.len() as int) =~= pv@);
        assert(tail@ == "/"@ + p@);
        let whole = file.len() == pv.len() && occurs_at_exec(file.as_slice(), pv.as_slice(), 0);
        assert(whole == (file@ == p@)) by {
            if file@.len() == pv@.len() {
                assert(file@.subrange(0, pv@.len() as int) =~= file@);
            }
        }
        whole || (tail.len() <= file.len() && occurs_at_exec(file.as_slice(), tail.as_slice(), file.len() - tail.len()))
    }
}

/// Whether a relative path is left out by the configuration's exclusion
/// patterns.
pub fn is_excluded(file_rel: &str, config: &Option<ContractConfig>) -> (r: bool)
    ensures
        r == excluded_by(file_rel@, *config),
{
    let code = match config {
        Some(c) => match &c.code {
            Some(code) => code,
            None => return false,
        },
        None => return false,
    };
    let exclude = match &code.exclude {
        Some(ex) => ex,
        None => return false,
    };
    let ghost ex = string_views(exclude@);
    let file = chars_of(file_rel);
    let mut k: usize = 0;
    while k < exclude.len()
        invariant
            k <= exclude@.len(),
            ex == string_views(exclude@),
            exclusions(*config) == Some(ex),
            file@ == file_rel@,
            forall|m: int| 0 <= m < k ==> !pattern_covers(file_rel@, #[trigger] ex[m]),
        decreases exclude@.len() - k,
    {
        assert(ex[k as int] == exclude@[k as int]@);
        if pattern_matches(&file, exclude[k].as_str()) {
            assert(pattern_covers(file_rel@, ex[k as int]));
            assert(0 <= k < ex.len());
            assert(exclusions(*config)->Some_0 == ex);
            assert(pattern_covers(file_rel@, exclusions(*config)->Some_0[k as int]));
            return true;
        }
        k = k + 1;
    }
    false
}

/// The rules to run: those given on the command line, else those of the
/// configuration, else all of `all_rules`.
pub fn resolve_enabled_rules(
    cli_rules: &Option<Vec<String>>,
    config: &Option<ContractConfig>,
    all_rules: &[&str],
) -> (r: Vec<String>)
    ensures
        string_views(r@) == (match cli_rules {
            Some(rules) => string_views(rules@),
            None => match configured_rules(*config) {
                Some(rules) => rules,
                None => all_rules@.map_values(|s: &str| s@),
            },
        }),
{
    if let Some(rules) = cli_rules {
        return clone_strings(rules);
    }
    if let Some(config) = config {
        if let Some(code) = &config.code {
            if let Some(rules) = &code.rules {
                return clone_strings(rules);
            }
        }
    }
    let mut out: Vec<String> = Vec::new();
    let mut k: usize = 0;
    while k < all_rules.len()
        invariant
            k <= all_rules@.len(),
            out@.len() == k,
            forall|m: int| 0 <= m < k ==> #[trigger] out@[m]@ == all_rules@[m]@,
        decreases all_rules@.len() - k,
    {
        out.push(owned(all_rules[k]));
        k = k + 1;
    }
    assert(string_views(out@) =~= all_rules@.map_values(|s: &str| s@));
    out
}

} // verus!
