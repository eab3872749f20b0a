//! Prompt templates for grammar checking models.
//!
//! The prompts instruct the model to return JSON matching the shared edit
//! schema.

use vstd::prelude::*;
use vstd::string::StringExecFns;

verus! {

/// The system prompt instructing the model to act as a grammar checker.
/// It asks for JSON of the form `{"edits": [...]}`.
pub const GRAMMAR_CHECK_SYSTEM_PROMPT: &'static str = r#"You are a precise grammar and style checker. Analyze the provided text and return ONLY a JSON object with suggested corrections.

Return format (strict JSON, no markdown, no explanation outside JSON):
{
  "edits": [
    {
      "start_index": <integer: UTF-16 code unit index, 0-based, inclusive>,
      "end_index": <integer: UTF-16 code unit index, exclusive>,
      "replacement": "<corrected text>",
      "category": "<grammar|style>",
      "explanation": "<optional brief reason>"
    }
  ]
}

Rules:
- Use "grammar" for: subject-verb disagreement, wrong tense, missing articles, pronoun errors, spelling mistakes
- Use "style" for: passive voice where active is clearer, wordiness, repeated words, unclear phrasing
- Positions are UTF-16 code unit indices (same as JavaScript's string.slice())
- Return {"edits": []} if the text is correct
- Only flag real errors, not stylistic preferences
- Do NOT return any text outside the JSON object"#;

/// The text placed before the user's text in the user message.
pub open spec fn user_message_prefix() -> Seq<char> {
    "Check the following text for grammar and style issues:\n\n"@
}

/// Wraps user text in the format expected by the model.
pub fn format_user_message(text: &str) -> (r: String)
    ensures
        r@ == user_message_prefix() + text@,
{
    let mut message = String::from_str("Check the following text for grammar and style issues:\n\n");
    message.append(text);
    message
}

} // verus!
