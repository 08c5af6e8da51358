//! Language front ends: each parses a source text into a [`SyntaxTree`].
pub mod backend;
pub mod parsers;

pub use parsers::{
    ParseResult, LanguageParser, RustParser, GoParser, TypeScriptParser, TsxParser, DartParser,
    parse_rust,
};
