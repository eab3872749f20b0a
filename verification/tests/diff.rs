use grammar_check::models::edit::{Edit, EditCategory};
use grammar_check::services::diff::{apply_edits, overlaps, DiffError};
use grammar_check::services::position::{utf16_len, PositionError};

fn make_edit(start: usize, end: usize, replacement: &str) -> Edit {
    Edit {
        start_index: start,
        end_index: end,
        replacement: replacement.to_string(),
        category: EditCategory::Grammar,
        explanation: None,
    }
}

#[test]
fn test_single_edit() {
    let text = "He dont like it";
    let edits = vec![make_edit(3, 7, "doesn't")];
    let result = apply_edits(text, &edits).unwrap();
    assert_eq!(result, "He doesn't like it");
}

#[test]
fn test_multiple_edits() {
    let text = "He dont like it and she dont either";
    let edits = vec![make_edit(3, 7, "doesn't"), make_edit(24, 28, "doesn't")];
    let result = apply_edits(text, &edits).unwrap();
    assert_eq!(result, "He doesn't like it and she doesn't either");
}

#[test]
fn test_empty_edits() {
    let text = "No issues here.";
    let result = apply_edits(text, &[]).unwrap();
    assert_eq!(result, text);
}

#[test]
fn test_utf16_len_ascii() {
    assert_eq!(utf16_len("hello"), 5);
}

#[test]
fn overlapping_edit_earlier_in_the_list_wins() {
    let edits = vec![make_edit(2, 6, "X"), make_edit(4, 9, "Y")];
    assert_eq!(apply_edits("0123456789", &edits).unwrap(), "01X6789");
    let edits = vec![make_edit(0, 5, "X"), make_edit(3, 8, "Y")];
    assert_eq!(apply_edits("abcdefgh", &edits).unwrap(), "Xfgh");
    let edits = vec![make_edit(3, 8, "Y"), make_edit(0, 5, "X")];
    assert_eq!(apply_edits("abcdefgh", &edits).unwrap(), "abcY");
}

#[test]
fn order_of_disjoint_edits_does_not_matter() {
    let text = "one two three four";
    let edits = vec![make_edit(0, 3, "1"), make_edit(4, 7, "2"), make_edit(8, 13, "3"), make_edit(14, 18, "4")];
    let expected = apply_edits(text, &edits).unwrap();
    assert_eq!(expected, "1 2 3 4");
    let orders: [[usize; 4]; 4] = [[3, 2, 1, 0], [1, 3, 0, 2], [2, 0, 3, 1], [0, 2, 1, 3]];
    for order in orders.iter() {
        let perm: Vec<Edit> = order.iter().map(|&k| edits[k].clone()).collect();
        assert_eq!(apply_edits(text, &perm).unwrap(), expected);
    }
}

#[test]
fn equal_starts_keep_first_in_input_order() {
    let edits = vec![make_edit(1, 2, "A"), make_edit(1, 3, "B")];
    assert_eq!(apply_edits("abcd", &edits).unwrap(), "aAcd");
}

#[test]
fn insertion_and_deletion() {
    let edits = vec![make_edit(2, 2, "++"), make_edit(4, 6, "")];
    assert_eq!(apply_edits("abcdef", &edits).unwrap(), "ab++cd");
}

#[test]
fn edit_beyond_text_is_an_error() {
    let edits = vec![make_edit(3, 10, "x")];
    assert_eq!(
        apply_edits("abcd", &edits),
        Err(DiffError::InvalidEnd(10, PositionError::OutOfBounds(10, 4)))
    );
}

#[test]
fn edit_splitting_surrogate_pair_is_an_error() {
    let edits = vec![make_edit(4, 5, "x")];
    assert_eq!(
        apply_edits("Hi \u{1F600}!", &edits),
        Err(DiffError::InvalidStart(4, PositionError::SplitsSurrogatePair(4)))
    );
}

#[test]
fn edits_after_emoji_use_utf16_positions() {
    let edits = vec![make_edit(5, 6, "?"), make_edit(0, 2, "Hello")];
    assert_eq!(apply_edits("Hi \u{1F600}!", &edits).unwrap(), "Hello \u{1F600}?");
}

#[test]
fn overlap_predicate() {
    assert!(overlaps(&make_edit(0, 5, ""), &make_edit(4, 6, "")));
    assert!(!overlaps(&make_edit(0, 4, ""), &make_edit(4, 6, "")));
}

#[test]
fn disjoint_edits_in_any_order_are_all_applied_in_place() {
    let text = "a cat sat on teh mat";
    let in_order = vec![make_edit(2, 5, "dog"), make_edit(13, 16, "the"), make_edit(6, 9, "sits")];
    let reversed: Vec<Edit> = in_order.iter().rev().cloned().collect();
    assert_eq!(apply_edits(text, &in_order).unwrap(), "a dog sits on the mat");
    assert_eq!(apply_edits(text, &reversed).unwrap(), "a dog sits on the mat");
}

#[test]
fn replacement_length_changes_do_not_shift_other_edits() {
    let text = "x \u{1F600} y z";
    let edits = vec![make_edit(0, 1, "longer"), make_edit(5, 6, ""), make_edit(7, 8, "Z")];
    assert_eq!(apply_edits(text, &edits).unwrap(), "longer \u{1F600}  Z");
}

#[test]
fn insertions_at_one_position_are_all_applied() {
    let edits = vec![make_edit(1, 1, "X"), make_edit(1, 1, "Y")];
    assert_eq!(apply_edits("ab", &edits).unwrap(), "aYXb");
}

#[test]
fn insertion_where_a_replacement_starts_is_kept() {
    let edits = vec![make_edit(1, 1, "X"), make_edit(1, 2, "Y")];
    assert_eq!(apply_edits("abc", &edits).unwrap(), "aXYc");
    let edits = vec![make_edit(1, 2, "Y"), make_edit(1, 1, "X")];
    assert_eq!(apply_edits("abc", &edits).unwrap(), "aXYc");
}
