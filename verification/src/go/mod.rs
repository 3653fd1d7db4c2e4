//! Go frontend: build constraints, complexity scanners, and coverprofile keys.
pub mod lex;
pub mod structure;
pub mod cyclomatic;
pub mod cognitive;
pub mod visitor;
pub mod complexity;
pub mod build_tag;
pub mod module_resolve;
pub mod coverprofile;
pub mod language;
