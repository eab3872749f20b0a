use grammar_check::models::edit::{Edit, EditCategory, LlmResponse};
use grammar_check::services::diff::apply_edits;
use grammar_check::services::validator::valid_edits;

fn edit(start: usize, end: usize, replacement: &str) -> Edit {
    Edit {
        start_index: start,
        end_index: end,
        replacement: replacement.to_string(),
        category: EditCategory::Style,
        explanation: Some("why".to_string()),
    }
}

fn positions(edits: &[Edit]) -> Vec<(usize, usize, String)> {
    edits.iter().map(|e| (e.start_index, e.end_index, e.replacement.clone())).collect()
}

#[test]
fn keeps_valid_edits_in_order() {
    let text = "He dont like it";
    let response = LlmResponse {
        edits: vec![
            edit(8, 12, "love"),
            edit(5, 5, "x"),
            edit(10, 20, "x"),
            edit(0, 2, "He"),
            edit(3, 7, "doesn't"),
            edit(7, 3, "y"),
        ],
    };
    let kept = valid_edits(&response, text);
    assert_eq!(
        positions(&kept),
        vec![(8, 12, "love".to_string()), (3, 7, "doesn't".to_string())]
    );
    assert_eq!(kept[0].category, EditCategory::Style);
    assert_eq!(kept[0].explanation.as_deref(), Some("why"));
}

#[test]
fn drops_edits_that_split_a_surrogate_pair() {
    let text = "Hi \u{1F600}!";
    let response = LlmResponse { edits: vec![edit(4, 5, "x"), edit(3, 5, ":)"), edit(5, 6, "?")] };
    let kept = valid_edits(&response, text);
    assert_eq!(positions(&kept), vec![(3, 5, ":)".to_string()), (5, 6, "?".to_string())]);
}

#[test]
fn edit_up_to_the_end_is_valid() {
    let response = LlmResponse { edits: vec![edit(0, 5, "world"), edit(0, 6, "x")] };
    assert_eq!(positions(&valid_edits(&response, "hello")), vec![(0, 5, "world".to_string())]);
}

#[test]
fn valid_edits_always_apply() {
    let text = "Hi \u{1F600}! He dont like it";
    let response = LlmResponse {
        edits: vec![edit(3, 5, ":)"), edit(4, 6, "bad"), edit(10, 14, "doesn't"), edit(6, 6, "")],
    };
    let kept = valid_edits(&response, text);
    let fixed = apply_edits(text, &kept).unwrap();
    assert_eq!(fixed, "Hi :)! He doesn't like it");
}

#[test]
fn nothing_to_validate() {
    let response = LlmResponse { edits: vec![] };
    assert!(valid_edits(&response, "text").is_empty());
}
