//! Change-risk (CRAP) analysis: coverage joins, complexity scanners, and the
//! rules that connect them.
pub mod chars;
pub mod coverage;
pub mod text;
pub mod path;
pub mod path_index;
pub mod ranges;
pub mod rust_path;
pub mod merge;
pub mod cargo;
pub mod go;
pub mod metric;
pub mod error;
pub mod language;
pub mod lcov;
pub mod process;
pub mod score;
pub mod threshold;
pub mod report;
