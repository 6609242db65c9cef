//! A command-line argument classifier.
//!
//! A flat sequence of argument strings is sorted into three disjoint
//! categories: positional arguments (no leading dash), boolean flags
//! (exactly one leading dash), and key-value pairs (exactly two leading
//! dashes, key and value joined by the first `=`). The first malformed
//! token aborts the whole parse with a typed error carrying that token.

pub mod laws;
pub mod model;
pub mod parser;

pub use parser::CLIError;
pub use parser::CLIParser;
