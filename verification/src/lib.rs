//! Resolves `{{ lookup('path', 'key') }}` directives inside a text document
//! against a remote key-value secret store: the document is scanned for
//! directives, each unique directive is resolved through a path-level cache,
//! and the resolved values are substituted back into the text.
pub mod cli;
pub mod error;
pub mod parser;
pub mod text;
pub mod vault;
