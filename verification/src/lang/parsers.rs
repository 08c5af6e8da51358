//! The parsers of the supported languages.
use vstd::prelude::*;
use crate::syntax::SyntaxTree;
use super::backend::{
    new_parser, set_grammar, language_error_text, parse_text, syntax_tree_from, models_nodes, parse_nodes,
    Grammar,
};

verus! {

broadcast use vstd::string::group_string_axioms;

/// The outcome of parsing one file.
pub struct ParseResult {
    pub file_path: String,
    pub tree: SyntaxTree,
    pub source: String,
}

/// What a parse of `source` for `file_path` with grammar `g` hands back:
/// the path, the source, and the plain form of the tree that tree-sitter
/// builds for the source.
pub open spec fn parsed_from(r: ParseResult, file_path: Seq<char>, source: Seq<char>, g: Grammar) -> bool {
    &&& r.file_path@ == file_path
    &&& r.source@ == source
    &&& models_nodes(r.tree, parse_nodes(g, source), source)
}

/// A parser for one language.
pub trait LanguageParser {
    /// The grammar the parser uses.
    spec fn grammar(&self) -> Grammar;

    fn language_name(&self) -> &'static str;

    fn file_extensions(&self) -> &'static [&'static str];

    fn parse(&mut self, file_path: &str, source: &str) -> (r: Option<ParseResult>)
        ensures
            r matches Some(p) && parsed_from(p, file_path@, source@, old(self).grammar()),
            final(self).grammar() == old(self).grammar(),
    ;
}

/// A parser with grammar `g` set, or the message `"{label}: {error}"`; the
/// bundled grammars are always accepted.
fn configured_parser(g: Grammar, label: &str) -> (r: Result<tree_sitter::Parser, String>)
    ensures
        r is Ok,
{
    let mut parser = new_parser();
    match set_grammar(&mut parser, g) {
        Ok(()) => Ok(parser),
        Err(e) => {
            let mut msg = label.to_string();
            msg.append(&language_error_text(&e));
            Err(msg)
        },
    }
}

/// Parses `source` with `parser` and grammar `g`, keeping the path and the
/// source.
fn parse_with(parser: &mut tree_sitter::Parser, g: Grammar, file_path: &str, source: &str) -> (r: Option<ParseResult>)
    ensures
        r matches Some(p) && parsed_from(p, file_path@, source@, g),
{
    let tree = parse_text(parser, g, source)?;
    let st = syntax_tree_from(&tree, source)?;
    Some(ParseResult { file_path: file_path.to_string(), tree: st, source: source.to_string() })
}

/// Parses a Rust source text: the plain form of the tree that tree-sitter
/// builds for it with the Rust grammar.
pub fn parse_rust(source: &str) -> (r: Option<SyntaxTree>)
    ensures
        r matches Some(t) && models_nodes(t, parse_nodes(Grammar::Rust, source@), source@),
{
    let mut parser = match configured_parser(Grammar::Rust, "设置 Rust 语言失败: ") {
        Ok(p) => p,
        Err(_) => return None,
    };
    let tree = parse_text(&mut parser, Grammar::Rust, source)?;
    syntax_tree_from(&tree, source)
}

pub struct RustParser {
    parser: tree_sitter::Parser,
}

impl RustParser {
    /// A parser with the Rust grammar set (which always succeeds).
    pub fn new() -> (r: Result<Self, String>)
        ensures
            r is Ok,
    {
        let parser = configured_parser(Grammar::Rust, "设置 Rust 语言失败: ")?;
        Ok(RustParser { parser })
    }
}

impl LanguageParser for RustParser {
    open spec fn grammar(&self) -> Grammar {
        Grammar::Rust
    }

    fn language_name(&self) -> (r: &'static str)
        ensures
            r@ == "Rust"@,
    {
        "Rust"
    }

    fn file_extensions(&self) -> (r: &'static [&'static str])
        ensures
            r@.len() == 1 && r@[0]@ == "rs"@,
    {
        &["rs"]
    }

    fn parse(&mut self, file_path: &str, source: &str) -> (r: Option<ParseResult>) {
        parse_with(&mut self.parser, Grammar::Rust, file_path, source)
    }
}

pub struct GoParser {
    parser: tree_sitter::Parser,
}

impl GoParser {
    /// A parser with the Go grammar set (which always succeeds).
    pub fn new() -> (r: Result<Self, String>)
        ensures
            r is Ok,
    {
        let parser = configured_parser(Grammar::Go, "设置 Go 语言失败: ")?;
        Ok(GoParser { parser })
    }
}

impl LanguageParser for GoParser {
    open spec fn grammar(&self) -> Grammar {
        Grammar::Go
    }

    fn language_name(&self) -> (r: &'static str)
        ensures
            r@ == "Go"@,
    {
        "Go"
    }

    fn file_extensions(&self) -> (r: &'static [&'static str])
        ensures
            r@.len() == 1 && r@[0]@ == "go"@,
    {
        &["go"]
    }

    fn parse(&mut self, file_path: &str, source: &str) -> (r: Option<ParseResult>) {
        parse_with(&mut self.parser, Grammar::Go, file_path, source)
    }
}

pub struct TypeScriptParser {
    parser: tree_sitter::Parser,
}

impl TypeScriptParser {
    /// A parser with the TypeScript grammar set (which always succeeds).
    pub fn new() -> (r: Result<Self, String>)
        ensures
            r is Ok,
    {
        let parser = configured_parser(Grammar::TypeScript, "设置 TypeScript 语言失败: ")?;
        Ok(TypeScriptParser { parser })
    }
}

impl LanguageParser for TypeScriptParser {
    open spec fn grammar(&self) -> Grammar {
        Grammar::TypeScript
    }

    fn language_name(&self) -> (r: &'static str)
        ensures
            r@ == "TypeScript"@,
    {
        "TypeScript"
    }

    fn file_extensions(&self) -> (r: &'static [&'static str])
        ensures
            r@.len() == 1 && r@[0]@ == "ts"@,
    {
        &["ts"]
    }

    fn parse(&mut self, file_path: &str, source: &str) -> (r: Option<ParseResult>) {
        parse_with(&mut self.parser, Grammar::TypeScript, file_path, source)
    }
}

pub struct TsxParser {
    parser: tree_sitter::Parser,
}

impl TsxParser {
    /// A parser with the TSX grammar set (which always succeeds).
    pub fn new() -> (r: Result<Self, String>)
        ensures
            r is Ok,
    {
        let parser = configured_parser(Grammar::Tsx, "设置 TSX 语言失败: ")?;
        Ok(TsxParser { parser })
    }
}

impl LanguageParser for TsxParser {
    open spec fn grammar(&self) -> Grammar {
        Grammar::Tsx
    }

    fn language_name(&self) -> (r: &'static str)
        ensures
            r@ == "TSX"@,
    {
        "TSX"
    }

    fn file_extensions(&self) -> (r: &'static [&'static str])
        ensures
            r@.len() == 1 && r@[0]@ == "tsx"@,
    {
        &["tsx"]
    }

    fn parse(&mut self, file_path: &str, source: &str) -> (r: Option<ParseResult>) {
        parse_with(&mut self.parser, Grammar::Tsx, file_path, source)
    }
}

pub struct DartParser {
    parser: tree_sitter::Parser,
}

impl DartParser {
    /// A parser with the Dart grammar set (which always succeeds).
    pub fn new() -> (r: Result<Self, String>)
        ensures
            r is Ok,
    {
        let parser = configured_parser(Grammar::Dart, "设置 Dart 语言失败: ")?;
        Ok(DartParser { parser })
    }
}

impl LanguageParser for DartParser {
    open spec fn grammar(&self) -> Grammar {
        Grammar::Dart
    }

    fn language_name(&self) -> (r: &'static str)
        ensures
            r@ == "Dart"@,
    {
        "Dart"
    }

    fn file_extensions(&self) -> (r: &'static [&'static str])
        ensures
            r@.len() == 1 && r@[0]@ == "dart"@,
    {
        &["dart"]
    }

    fn parse(&mut self, file_path: &str, source: &str) -> (r: Option<ParseResult>) {
        parse_with(&mut self.parser, Grammar::Dart, file_path, source)
    }
}

} // verus!
