//! Index, policy and lint records.
use vstd::prelude::*;
use crate::checks::Check;

verus! {

/// The index: lint/format rules and sync rules.
pub struct Index {
    pub rules: Vec<RuleIndex>,
    pub sync: Vec<SyncRule>,
}

/// A lint/format rule of the index.
pub struct RuleIndex {
    pub id: String,
    pub patterns: Vec<String>,
    pub policy: String,
}

/// A sync rule of the index.
pub struct SyncRule {
    pub id: String,
    pub source: String,
    pub target: String,
    pub when: String,
    /// Structured format of the files (`json` merges), if any.
    pub format: Option<String>,
    /// Severity of the lint issue for a target not yet in sync (default `info`).
    pub level: Option<String>,
    /// Message of that issue (default `Not synced yet. Please run rigra sync.`).
    pub message: Option<String>,
}

/// One lint finding.
pub struct Issue {
    pub file: String,
    pub rule: String,
    pub severity: String,
    pub path: String,
    pub message: String,
}

/// Counts of a lint run.
pub struct Summary {
    pub errors: usize,
    pub warnings: usize,
    pub infos: usize,
    pub files: usize,
}

/// Findings and their counts.
pub struct LintResult {
    pub issues: Vec<Issue>,
    pub summary: Summary,
}

/// A policy for one category of documents.
pub struct Policy {
    pub checks: Vec<Check>,
    pub order: Option<OrderSpec>,
    pub linebreak: Option<LineBreakSpec>,
}

/// Key order of a policy: groups at the top level, then named sub-orders.
pub struct OrderSpec {
    pub top: Vec<Vec<String>>,
    /// Named groups, visited in this order after the top groups.
    pub sub: Vec<(String, Vec<String>)>,
    pub message: Option<String>,
    pub level: Option<String>,
}

/// Line-break policy.
pub struct LineBreakSpec {
    pub between_groups: Option<bool>,
    pub before_fields: Vec<(String, LineBreakRule)>,
    pub in_fields: Vec<(String, LineBreakRule)>,
}

/// Whether a blank line is kept where the source had one, or removed.
#[derive(Clone, Copy, PartialEq, Eq, Structural, Debug)]
pub enum LineBreakRule {
    Keep,
    /// No blank line (written `none` in policies).
    Strip,
}

} // verus!
