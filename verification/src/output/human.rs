//! The parts of the human-readable report of an edit: the covered text, up
//! to 60 UTF-16 units of context on each side, and the column.

use vstd::prelude::*;
use crate::models::edit::Edit;
use crate::services::position::{utf16_len, utf16_slice, utf16_slice_spec};
use crate::text::utf16_length;

verus! {

/// How an edit is shown in the human-readable report.
#[derive(Debug)]
pub struct EditDisplay<'a> {
    /// The text the edit covers, or "[invalid range]".
    pub original: &'a str,
    /// Up to 60 UTF-16 units of text before it ("" when that cannot be cut).
    pub before: &'a str,
    /// Up to 60 UTF-16 units of text after it ("" when that cannot be cut).
    pub after: &'a str,
    /// More text precedes the context shown.
    pub ellipsis_before: bool,
    /// More text follows the context shown.
    pub ellipsis_after: bool,
    /// UTF-16 column at which the edit starts (clamped to the text).
    pub column: usize,
}

/// The noun for `count` issues in the report's summary line.
pub fn issue_word(count: usize) -> (r: &'static str)
    ensures
        r@ == (if count == 1 {
            "issue"@
        } else {
            "issues"@
        }),
{
    if count == 1 {
        "issue"
    } else {
        "issues"
    }
}

/// The smaller of two numbers.
pub open spec fn min_nat(a: int, b: int) -> int {
    if a < b {
        a
    } else {
        b
    }
}

/// The slice of `s` between two UTF-16 positions, or `fallback`.
pub open spec fn slice_or(s: Seq<char>, start: int, end: int, fallback: Seq<char>) -> Seq<char> {
    match utf16_slice_spec(s, start as usize, end as usize) {
        Ok(v) => v,
        Err(_) => fallback,
    }
}

/// Cuts the UTF-16 range `start..end` out of `text`, or gives `fallback`.
fn slice_or_else<'a>(text: &'a str, start: usize, end: usize, fallback: &'a str) -> (r: &'a str)
    requires
        start <= end,
    ensures
        r@ == slice_or(text@, start as int, end as int, fallback@),
{
    match utf16_slice(text, start, end) {
        Ok(s) => s,
        Err(_) => fallback,
    }
}

/// What the report shows for `edit` in `text`: the edit's range is clamped
/// to the text, and context of up to 60 UTF-16 units is cut on each side.
pub fn describe_edit<'a>(edit: &Edit, text: &'a str) -> (r: EditDisplay<'a>)
    requires
        min_nat(edit.end_index as int, utf16_length(text@) as int) + 60 <= usize::MAX,
    ensures
        ({
            let len = utf16_length(text@) as int;
            let safe_end = min_nat(edit.end_index as int, len);
            let safe_start = min_nat(edit.start_index as int, safe_end);
            let before_start = if safe_start >= 60 {
                safe_start - 60
            } else {
                0
            };
            let after_end = min_nat(safe_end + 60, len);
            &&& r.original@ == slice_or(text@, safe_start, safe_end, "[invalid range]"@)
            &&& r.before@ == slice_or(text@, before_start, safe_start, ""@)
            &&& r.after@ == slice_or(text@, safe_end, after_end, ""@)
            &&& r.ellipsis_before == (before_start > 0)
            &&& r.ellipsis_after == (after_end < len)
            &&& r.column == safe_start
        }),
{
    let text_utf16_len = utf16_len(text);
    let safe_end = if edit.end_index < text_utf16_len {
        edit.end_index
    } else {
        text_utf16_len
    };
    let safe_start = if edit.start_index < safe_end {
        edit.start_index
    } else {
        safe_end
    };
    let original = slice_or_else(text, safe_start, safe_end, "[invalid range]");
    // Context of up to 60 units on each side.
    let context_before_start = safe_start.saturating_sub(60);
    let context_after_end = if safe_end + 60 < text_utf16_len {
        safe_end + 60
    } else {
        text_utf16_len
    };
    let before = slice_or_else(text, context_before_start, safe_start, "");
    let after = slice_or_else(text, safe_end, context_after_end, "");
    EditDisplay {
        original,
        before,
        after,
        ellipsis_before: context_before_start > 0,
        ellipsis_after: context_after_end < text_utf16_len,
        column: safe_start,
    }
}

} // verus!
