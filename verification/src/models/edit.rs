//! Edit and check-result types.
//!
//! All positions are UTF-16 code unit indices (the same as JavaScript string
//! indices).

use vstd::prelude::*;
use crate::models::config::OperatingMode;

verus! {

/// A single suggested text correction.
#[derive(Debug)]
pub struct Edit {
    /// Start position in the checked text (UTF-16 index, 0-based, inclusive).
    pub start_index: usize,
    /// End position in the checked text (exclusive).
    pub end_index: usize,
    /// The suggested replacement text; empty for a deletion.
    pub replacement: String,
    /// Issue category: grammar or style.
    pub category: EditCategory,
    /// Optional explanation of why the correction is suggested.
    pub explanation: Option<String>,
}

impl Clone for Edit {
    fn clone(&self) -> (r: Self)
        ensures
            r == *self,
    {
        let explanation = match &self.explanation {
            Some(e) => Some(e.clone()),
            None => None,
        };
        Edit {
            start_index: self.start_index,
            end_index: self.end_index,
            replacement: self.replacement.clone(),
            category: self.category,
            explanation,
        }
    }
}

/// Category of an issue.
#[derive(Debug, Clone, Copy, PartialEq, Eq, Structural)]
pub enum EditCategory {
    Grammar,
    Style,
}

impl EditCategory {
    /// The lowercase name used in the JSON contract.
    pub fn as_str(self) -> (r: &'static str)
        ensures
            self == EditCategory::Grammar ==> r@ == "grammar"@,
            self == EditCategory::Style ==> r@ == "style"@,
    {
        match self {
            EditCategory::Grammar => "grammar",
            EditCategory::Style => "style",
        }
    }
}

/// The result of a grammar check.
#[derive(Debug)]
pub struct CheckResult {
    /// The (normalized) text that was checked.
    pub original_text: String,
    /// Suggested corrections, possibly none.
    pub edits: Vec<Edit>,
    /// How the check was processed.
    pub metadata: ProcessingMetadata,
}

/// Metadata about how a check was processed.
#[derive(Debug)]
pub struct ProcessingMetadata {
    /// The operating mode used.
    pub mode: OperatingMode,
    /// Provider name: "ollama", "openai" or "gemini".
    pub provider: String,
    /// Model name.
    pub model: String,
    /// Total processing time in milliseconds.
    pub processing_time_ms: u64,
    /// Number of chunks processed, for documents that were split.
    pub chunks_processed: Option<u32>,
}

/// The model's response: a list of edits.
#[derive(Debug)]
pub struct LlmResponse {
    pub edits: Vec<Edit>,
}

} // verus!
