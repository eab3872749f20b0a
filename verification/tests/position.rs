use grammar_check::services::position::{
    byte_to_js_index, js_index_to_byte, normalize_line_endings, utf16_len, utf16_slice,
    PositionError,
};
use std::borrow::Cow;

#[test]
fn test_ascii_positions() {
    let text = "Hello, world!";
    assert_eq!(byte_to_js_index(text, 7), 7);
    assert_eq!(js_index_to_byte(text, 7).unwrap(), 7);
}

#[test]
fn test_emoji_surrogate_pair() {
    let text = "Hi 😀!";
    assert_eq!(utf16_len(text), 6);
    assert_eq!(byte_to_js_index(text, 3), 3);
    assert_eq!(byte_to_js_index(text, 7), 5);
}

#[test]
fn byte_inside_a_char_counts_that_char() {
    // Byte 4 lies inside the emoji (bytes 3..7): the emoji starts before it.
    assert_eq!(byte_to_js_index("Hi 😀!", 4), 5);
    assert_eq!(byte_to_js_index("Hi 😀!", 100), 6);
}

#[test]
fn js_index_errors() {
    assert_eq!(js_index_to_byte("Hi 😀!", 4), Err(PositionError::SplitsSurrogatePair(4)));
    assert_eq!(js_index_to_byte("Hi 😀!", 7), Err(PositionError::OutOfBounds(7, 6)));
    assert_eq!(js_index_to_byte("Hi 😀!", 5), Ok(7));
    assert_eq!(js_index_to_byte("Hi 😀!", 6), Ok(8));
    assert_eq!(js_index_to_byte("été", 1), Ok(2));
}

#[test]
fn slices_by_utf16_range() {
    assert_eq!(utf16_slice("Hi 😀!", 3, 5).unwrap(), "😀");
    assert_eq!(utf16_slice("Hi 😀!", 0, 2).unwrap(), "Hi");
    assert_eq!(utf16_slice("Hi 😀!", 4, 5), Err(PositionError::SplitsSurrogatePair(4)));
    assert_eq!(utf16_slice("Hi", 1, 9), Err(PositionError::OutOfBounds(9, 2)));
}

#[test]
fn normalizes_line_endings() {
    assert_eq!(normalize_line_endings("a\r\nb\rc\r\r\n"), "a\nb\nc\n\n");
    assert!(matches!(normalize_line_endings("plain\ntext"), Cow::Borrowed("plain\ntext")));
    assert!(matches!(normalize_line_endings("x\ry"), Cow::Owned(_)));
}

#[test]
fn positions_round_trip_on_char_starts() {
    let text = "a\u{e9}\u{1F600}b";
    for (byte, js) in [(0, 0), (1, 1), (3, 2), (7, 4), (8, 5)] {
        assert_eq!(js_index_to_byte(text, js), Ok(byte));
        assert_eq!(byte_to_js_index(text, byte), js);
    }
}

#[test]
fn normalizing_twice_changes_nothing_more() {
    let once = normalize_line_endings("a\r\r\nb\r").into_owned();
    assert_eq!(once, "a\n\nb\n");
    assert!(matches!(normalize_line_endings(&once), Cow::Borrowed(_)));
    assert_eq!(normalize_line_endings(&once), once.as_str());
}
