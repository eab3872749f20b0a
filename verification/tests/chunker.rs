use grammar_check::models::edit::{Edit, EditCategory};
use grammar_check::services::chunker::{
    can_merge, chunk_text, merge_chunk_edits, Chunk, ChunkingOptions,
};

fn edit(start: usize, end: usize, replacement: &str) -> Edit {
    Edit {
        start_index: start,
        end_index: end,
        replacement: replacement.to_string(),
        category: EditCategory::Grammar,
        explanation: None,
    }
}

fn opts(target_size: usize, overlap_size: usize) -> ChunkingOptions {
    ChunkingOptions { target_size, overlap_size }
}

fn summary(chunks: &[Chunk]) -> Vec<(String, usize, usize, usize)> {
    chunks
        .iter()
        .map(|c| (c.text.clone(), c.doc_start_byte, c.primary_range.start, c.primary_range.end))
        .collect()
}

const SENTENCES: &str = "One two three. Four five six. Seven eight nine. Ten eleven twelve.";

#[test]
fn default_options() {
    let o = ChunkingOptions::default();
    assert_eq!(o.target_size, 3500);
    assert_eq!(o.overlap_size, 400);
}

#[test]
fn short_text_is_one_chunk() {
    let chunks = chunk_text("Hi \u{1F600} there.", &ChunkingOptions::default());
    assert_eq!(summary(&chunks), vec![("Hi \u{1F600} there.".to_string(), 0, 0, 12)]);
}

#[test]
fn empty_text_is_one_empty_chunk() {
    let chunks = chunk_text("", &opts(10, 3));
    assert_eq!(summary(&chunks), vec![(String::new(), 0, 0, 0)]);
}

#[test]
fn long_text_splits_at_sentence_ends() {
    let chunks = chunk_text(SENTENCES, &opts(10, 3));
    assert_eq!(
        summary(&chunks),
        vec![
            ("One two three. Fo".to_string(), 0, 0, 14),
            ("ee. Four five six. Se".to_string(), 11, 3, 18),
            ("ix. Seven eight nine. Te".to_string(), 26, 3, 21),
            ("ne. Ten eleven twelve.".to_string(), 44, 3, 22),
        ]
    );
}

#[test]
fn paragraph_breaks_are_preferred() {
    let text = "First paragraph here\n\nSecond one follows\n\nThird.";
    let chunks = chunk_text(text, &opts(8, 2));
    assert_eq!(
        summary(&chunks),
        vec![
            ("First paragraph here\n\nSe".to_string(), 0, 0, 22),
            ("\n\nSecond one follows\n\nTh".to_string(), 20, 2, 22),
            ("\n\nThird.".to_string(), 40, 2, 8),
        ]
    );
}

#[test]
fn multibyte_text_chunks_on_char_boundaries() {
    let text = "Caf\u{e9} \u{1F600} ok. Na\u{ef}ve words here. End of text now.";
    let chunks = chunk_text(text, &opts(10, 2));
    assert_eq!(
        summary(&chunks),
        vec![
            ("Caf\u{e9} \u{1F600} ok. Na\u{ef}ve words here. E".to_string(), 0, 0, 29),
            ("e. End of text now.".to_string(), 31, 2, 19),
        ]
    );
}

#[test]
fn primary_regions_tile_the_document() {
    // Each chunk is the part of the document at its start byte, and the
    // primary regions, in document UTF-16 positions, follow one another from
    // the start to the end of the document.
    let chunks = chunk_text(SENTENCES, &opts(10, 3));
    let mut expected_start = 0;
    for c in &chunks {
        assert_eq!(&SENTENCES[c.doc_start_byte..c.doc_start_byte + c.text.len()], c.text);
        let js_start = SENTENCES[..c.doc_start_byte].encode_utf16().count();
        assert_eq!(js_start + c.primary_range.start, expected_start);
        expected_start = js_start + c.primary_range.end;
    }
    assert_eq!(expected_start, SENTENCES.encode_utf16().count());
}

#[test]
fn huge_options_keep_the_text_whole() {
    let chunks = chunk_text(SENTENCES, &opts(usize::MAX, 1));
    assert_eq!(chunks.len(), 1);
    let chunks = chunk_text(SENTENCES, &opts(1, usize::MAX / 2 + 1));
    assert_eq!(chunks.len(), 1);
}

#[test]
fn unicode_text_near_the_end_is_chunked() {
    let chunks = chunk_text("abcd. \u{e9}", &opts(4, 0));
    assert_eq!(
        summary(&chunks),
        vec![("abcd.".to_string(), 0, 0, 5), (" \u{e9}".to_string(), 5, 0, 2)]
    );
}

const EMOJI_TEXT: &str =
    "Hi \u{1F600} there. Second sentence here. \u{1F600}\u{1F600} end. Last one.";

#[test]
fn overlap_is_counted_in_utf16_units() {
    assert_eq!(
        summary(&chunk_text(EMOJI_TEXT, &opts(12, 3))),
        vec![
            ("Hi \u{1F600} there. Second sentence here. \u{1F600}".to_string(), 0, 0, 34),
            ("re. \u{1F600}\u{1F600} end. Last one.".to_string(), 33, 3, 23),
        ]
    );
    // Two units after the primary region fall inside an emoji: the chunk
    // takes the whole emoji.
    assert_eq!(
        summary(&chunk_text(EMOJI_TEXT, &opts(12, 2))),
        vec![
            ("Hi \u{1F600} there. Second sentence here. \u{1F600}".to_string(), 0, 0, 34),
            ("e. \u{1F600}\u{1F600} end. Last one.".to_string(), 34, 2, 22),
        ]
    );
}

#[test]
fn overlap_on_each_side_is_as_asked() {
    let overlap = 3;
    let total = EMOJI_TEXT.encode_utf16().count();
    for c in chunk_text(EMOJI_TEXT, &opts(12, overlap)) {
        let js_start = EMOJI_TEXT[..c.doc_start_byte].encode_utf16().count();
        let p = js_start + c.primary_range.start;
        let q = js_start + c.primary_range.end;
        assert_eq!(c.primary_range.start, overlap.min(p));
        assert_eq!(c.text.encode_utf16().count() - c.primary_range.end, overlap.min(total - q));
        assert!(c.primary_range.start < c.primary_range.end);
    }
}

#[test]
fn merge_shifts_filters_and_sorts() {
    let chunks = chunk_text(SENTENCES, &opts(10, 3));
    let chunk_edits = vec![
        vec![edit(4, 7, "TWO"), edit(15, 17, "x")],
        vec![edit(3, 7, "FOUR"), edit(0, 2, "no")],
        vec![edit(4, 9, "SEVEN")],
        vec![edit(21, 22, "!"), edit(4, 7, "TEN")],
    ];
    let merged = merge_chunk_edits(&chunks, chunk_edits, SENTENCES);
    let got: Vec<(usize, usize, String)> =
        merged.iter().map(|e| (e.start_index, e.end_index, e.replacement.clone())).collect();
    assert_eq!(
        got,
        vec![
            (4, 7, "TWO".to_string()),
            (14, 18, "FOUR".to_string()),
            (30, 35, "SEVEN".to_string()),
            (48, 51, "TEN".to_string()),
            (65, 66, "!".to_string()),
        ]
    );
    // A shifted edit covers the same text in the document as in its chunk.
    let doc: Vec<u16> = SENTENCES.encode_utf16().collect();
    assert_eq!(String::from_utf16(&doc[30..35]).unwrap(), "Seven");
}

#[test]
fn merge_keeps_first_of_equal_positions() {
    let chunks = chunk_text(SENTENCES, &opts(10, 3));
    let chunk_edits = vec![vec![edit(8, 13, "A"), edit(4, 7, "B"), edit(8, 13, "C")]];
    let merged = merge_chunk_edits(&chunks, chunk_edits, SENTENCES);
    let got: Vec<(usize, usize, String)> =
        merged.iter().map(|e| (e.start_index, e.end_index, e.replacement.clone())).collect();
    assert_eq!(got, vec![(4, 7, "B".to_string()), (8, 13, "A".to_string())]);
}

#[test]
fn merge_of_nothing_is_empty() {
    let chunks = chunk_text(SENTENCES, &opts(10, 3));
    assert!(merge_chunk_edits(&chunks, vec![], SENTENCES).is_empty());
}

#[test]
fn chunks_of_a_text_can_be_merged() {
    let chunks = chunk_text(SENTENCES, &opts(10, 3));
    let edits = vec![vec![edit(4, 7, "TWO")], vec![], vec![], vec![edit(3, 7, "x")]];
    assert!(can_merge(SENTENCES, &chunks, &edits));
    let moved = vec![Chunk { text: "x".to_string(), doc_start_byte: 1, primary_range: 0..1 }];
    assert!(!can_merge("\u{e9}x", &moved, &vec![vec![]]));
    let far = vec![Chunk { text: "x".to_string(), doc_start_byte: 1, primary_range: 0..1 }];
    assert!(can_merge("ax", &far, &vec![vec![edit(0, 1, "y"), edit(0, usize::MAX, "z")]]));
    assert!(!can_merge("ax", &far, &vec![vec![Edit {
        start_index: usize::MAX,
        end_index: 1,
        replacement: "z".to_string(),
        category: EditCategory::Grammar,
        explanation: None,
    }]]));
}
