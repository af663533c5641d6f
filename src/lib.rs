//! Convention normalization and merge engine for structured documents.
//!
//! - `json`: the document tree, its mathematical model and equality.
//! - `path`: dotted paths into documents.
//! - `text`: character-level helpers over lines of pretty-printed text.
//! - `order`: key-order normalization and conformance.
//! - `merge`: structural merge of a template into a target.
//! - `linebreak`, `format`: blank-line placement after pretty-printing.
//! - `checks`, `lint`: predicate checks, order conformance, issue ordering.
//! - `sync`: scope gating, sync planning and write detection.
//! - `output`: the grouped human-readable lint report.
//! - `models`, `config`, `cli`: records shared with callers.
pub mod checks;
pub mod cli;
pub mod config;
pub mod format;
pub mod json;
pub mod linebreak;
pub mod lint;
pub mod merge;
pub mod models;
pub mod order;
pub mod output;
pub mod path;
pub mod sync;
pub mod text;
