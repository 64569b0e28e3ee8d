//! A parser and canonical renderer for a small path-expression language:
//! `/`-separated segments, each with optional `[name=value,...]` filters.

pub mod errors;
pub mod laws;
pub mod node;
pub mod parser;
pub mod text;
pub mod xpath;

pub use errors::ParseError;
pub use xpath::XPath;
