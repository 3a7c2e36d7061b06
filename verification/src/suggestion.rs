//! The values exchanged with a checker backend and handed to the reporting
//! layer: character-indexed suggestions and byte-range-located diagnostics.

use vstd::prelude::*;

verus! {

/// A byte range `[start, end)` into a source text.
#[derive(Debug, Clone, Copy, PartialEq, Eq, Structural)]
pub struct SourceRange {
    pub start: usize,
    pub end: usize,
}

/// A checker-reported issue located by character offsets within one extracted
/// text segment. `start` and `end` count Unicode scalar values, not bytes.
#[derive(Debug, Clone)]
pub struct Suggestion {
    pub start: usize,
    pub end: usize,
    pub message: String,
    pub replacements: Vec<String>,
    pub rule_description: String,
    pub rule_id: String,
}

/// A suggestion resolved to byte ranges in the original source, ready for
/// user-facing reporting. A diagnostic with no locations is unmappable and
/// is never surfaced.
#[derive(Debug, Clone)]
pub struct Diagnostic {
    pub locations: Vec<SourceRange>,
    pub message: String,
    pub replacements: Vec<String>,
    pub rule_description: String,
    pub rule_id: String,
}

} // verus!
