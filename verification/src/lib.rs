//! Static analysis of source code: rule-based detectors over syntax trees,
//! program slicing and data-flow tracing, module dependency graphs and
//! patch bookkeeping, all with machine-checked contracts.

pub mod text;
pub mod json;
pub mod order;
pub mod paths;
pub mod syntax;
pub mod lang;
pub mod detect;
pub mod config;
pub mod llm;
pub mod refactor;
pub mod reflect;
pub mod report;
pub mod scan;
pub mod lab;
