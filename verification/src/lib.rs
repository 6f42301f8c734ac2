//! A Mustache template engine: a scanner, a parser, a renderer over JSON-like
//! data, and a repair pass for broken templates.

pub mod text;
pub mod scanner;
pub mod standalone;
pub mod source;
pub mod repaired;
pub mod parser;
pub mod json;
pub mod renderer;
pub mod jugaad;
pub mod explainer;
