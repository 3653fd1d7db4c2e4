//! Rust frontend: workspace members, source walking, and command-line rules.
pub mod error;
pub mod walk;
pub mod workspace;
pub mod json;
pub mod cli;
pub mod coverage;
pub mod complexity;
