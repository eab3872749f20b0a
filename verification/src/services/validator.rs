//! Validation of the edits a language model suggests.
//!
//! Edits whose positions fall outside the document, that are empty ranges,
//! that split a surrogate pair, or that would not change the text are dropped
//! rather than failing the whole response: partial results are more useful
//! than none.

use vstd::prelude::*;
use vstd::string::StringExecFns;
use crate::models::edit::{Edit, LlmResponse};
use crate::services::position::{utf16_len, utf16_slice, utf16_slice_spec};
use crate::services::diff::{
    apply_edits_spec, apply_reaches_inverted_edit, applied_edits, edits_fit,
    lemma_apply_edits_in_place, lemma_ordered_edits_apply_without_panic, splice, DiffError,
};
use crate::text::{is_js_boundary, js_char_index, utf16_length};

verus! {

/// An edit is kept when its range is non-empty, lies within the text, maps
/// onto char boundaries, and its replacement differs from the text it covers.
pub open spec fn edit_is_valid(e: Edit, text: Seq<char>) -> bool {
    &&& e.start_index < e.end_index
    &&& e.end_index <= utf16_length(text)
    &&& utf16_slice_spec(text, e.start_index, e.end_index) matches Ok(original)
    &&& original != e.replacement@
}

/// The valid edits of `edits`, in order.
pub open spec fn valid_edits_spec(edits: Seq<Edit>, text: Seq<char>) -> Seq<Edit>
    decreases edits.len(),
{
    if edits.len() == 0 {
        Seq::empty()
    } else if edit_is_valid(edits.last(), text) {
        valid_edits_spec(edits.drop_last(), text).push(edits.last())
    } else {
        valid_edits_spec(edits.drop_last(), text)
    }
}

/// Returns true if an edit passes all validation rules.
fn validate_edit(edit: &Edit, text: &str, text_utf16_len: usize) -> (r: bool)
    requires
        text_utf16_len == utf16_length(text@),
    ensures
        r == edit_is_valid(*edit, text@),
{
    // Positions must be a non-empty range.
    if edit.start_index >= edit.end_index {
        return false;
    }
    // Must be within document bounds.
    if edit.end_index > text_utf16_len {
        return false;
    }
    // Must map onto char boundaries and represent an actual change.
    match utf16_slice(text, edit.start_index, edit.end_index) {
        Ok(original) => {
            let original = String::from_str(original);
            original != edit.replacement
        },
        Err(_) => false,
    }
}

/// The edits of a parsed model response that pass validation against the
/// text they were suggested for, in their original order.
pub fn valid_edits(response: &LlmResponse, original_text: &str) -> (r: Vec<Edit>)
    ensures
        r@ == valid_edits_spec(response.edits@, original_text@),
        r@ == response.edits@.filter(|e: Edit| acceptable_edit(original_text@, e)),
{
    proof {
        lemma_valid_edits_are_the_acceptable_ones(response.edits@, original_text@);
    }
    let text_len = utf16_len(original_text);
    let edits = &response.edits;
    let mut kept: Vec<Edit> = Vec::new();
    let mut i: usize = 0;
    proof {
        assert(edits@.take(0) =~= Seq::<Edit>::empty());
    }
    while i < edits.len()
        invariant
            0 <= i <= edits.len(),
            text_len == utf16_length(original_text@),
            kept@ == valid_edits_spec(edits@.take(i as int), original_text@),
        decreases edits.len() - i,
    {
        proof {
            assert(edits@.take(i + 1).drop_last() =~= edits@.take(i as int));
            assert(edits@.take(i + 1).last() == edits@[i as int]);
        }
        if validate_edit(&edits[i], original_text, text_len) {
            kept.push(edits[i].clone());
        }
        i = i + 1;
    }
    proof {
        assert(edits@.take(edits.len() as int) =~= edits@);
    }
    kept
}

/// Every edit that validation keeps is one of the input edits and is valid.
proof fn lemma_valid_edits_kept(edits: Seq<Edit>, text: Seq<char>)
    ensures
        forall|k: int|
            0 <= k < valid_edits_spec(edits, text).len() ==> edit_is_valid(
                #[trigger] valid_edits_spec(edits, text)[k],
                text,
            ) && edits.contains(valid_edits_spec(edits, text)[k]),
    decreases edits.len(),
{
    if edits.len() > 0 {
        let d = edits.drop_last();
        lemma_valid_edits_kept(d, text);
        let r = valid_edits_spec(edits, text);
        let r0 = valid_edits_spec(d, text);
        assert forall|k: int| 0 <= k < r.len() implies edit_is_valid(#[trigger] r[k], text)
            && edits.contains(r[k]) by {
            if k < r0.len() {
                assert(r[k] == r0[k]);
                let m = choose|m: int| 0 <= m < d.len() && d[m] == r0[k];
                assert(edits[m] == d[m]);
            } else {
                assert(r[k] == edits[edits.len() - 1]);
            }
        }
    }
}

/// The edits that validation keeps can be applied to the text they were
/// validated against: both ends of each fall on char starts and each starts
/// before it ends, so `apply_edits` on that text never panics and applies each
/// of them to the range it names.
pub proof fn lemma_valid_edits_fit(edits: Seq<Edit>, text: Seq<char>)
    ensures
        edits_fit(text, valid_edits_spec(edits, text)),
        !apply_reaches_inverted_edit(text, applied_edits(valid_edits_spec(edits, text))),
        apply_edits_spec(text, valid_edits_spec(edits, text)) == Ok::<Seq<char>, DiffError>(
            splice(text, applied_edits(valid_edits_spec(edits, text))),
        ),
{
    lemma_valid_edits_kept(edits, text);
    let r = valid_edits_spec(edits, text);
    assert forall|k: int| 0 <= k < r.len() implies {
        &&& is_js_boundary(text, #[trigger] r[k].start_index as int)
        &&& is_js_boundary(text, r[k].end_index as int)
        &&& r[k].start_index <= r[k].end_index
    } by {
        assert(edit_is_valid(r[k], text));
    }
    lemma_ordered_edits_apply_without_panic(text, r);
    lemma_apply_edits_in_place(text, r);
}

/// What validation accepts, stated on the text itself: a non-empty range
/// within the text whose two ends are char starts (or the end), and a
/// replacement, of any length (the empty one included), that differs from
/// the chars the range covers.
pub open spec fn acceptable_edit(text: Seq<char>, e: Edit) -> bool {
    &&& e.start_index < e.end_index
    &&& e.end_index <= utf16_length(text)
    &&& is_js_boundary(text, e.start_index as int)
    &&& is_js_boundary(text, e.end_index as int)
    &&& text.subrange(
        js_char_index(text, e.start_index as int),
        js_char_index(text, e.end_index as int),
    ) != e.replacement@
}

proof fn lemma_valid_iff_acceptable(e: Edit, text: Seq<char>)
    ensures
        edit_is_valid(e, text) <==> acceptable_edit(text, e),
{
}

/// Validation keeps exactly the acceptable edits, in their order: its result
/// is the input filtered by `acceptable_edit`.
pub proof fn lemma_valid_edits_are_the_acceptable_ones(edits: Seq<Edit>, text: Seq<char>)
    ensures
        valid_edits_spec(edits, text) == edits.filter(|e: Edit| acceptable_edit(text, e)),
    decreases edits.len(),
{
    reveal(Seq::filter);
    if edits.len() > 0 {
        lemma_valid_edits_are_the_acceptable_ones(edits.drop_last(), text);
        lemma_valid_iff_acceptable(edits.last(), text);
    }
}

} // verus!
