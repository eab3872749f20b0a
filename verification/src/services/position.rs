//! Unicode-safe position handling.
//!
//! Edit positions are UTF-16 code unit indices (JavaScript string positions);
//! Rust strings are addressed by byte offsets. This module converts between
//! the two.

use std::borrow::Cow;
use vstd::prelude::*;
use crate::text::{
    byte_len, byte_offset, char_utf16_width, char_utf8_width, chars_before_byte, chars_of,
    is_js_boundary, js_char_index, js_offset, lemma_chars_before_byte_unique,
    lemma_js_char_index_unique, lemma_offset_bounds, lemma_offset_full, lemma_offset_zero, lemma_offset_monotonic,
    lemma_offset_step, lemma_utf16_len_append, push_char, str_subrange, utf16_length, utf8_length,
};

verus! {

/// Why a UTF-16 position could not be mapped into a text.
#[derive(Debug, Clone, Copy, PartialEq, Eq, Structural)]
pub enum PositionError {
    /// The position (first field) lies beyond the text's UTF-16 length (second field).
    OutOfBounds(usize, usize),
    /// The position falls between the two halves of a surrogate pair.
    SplitsSurrogatePair(usize),
}

/// What `js_index_to_byte` gives for the UTF-16 position `j` in `s`.
pub open spec fn js_to_byte(s: Seq<char>, j: usize) -> Result<usize, PositionError> {
    if j > utf16_length(s) {
        Err(PositionError::OutOfBounds(j, utf16_length(s) as usize))
    } else if is_js_boundary(s, j as int) {
        Ok(byte_offset(s, js_char_index(s, j as int)) as usize)
    } else {
        Err(PositionError::SplitsSurrogatePair(j))
    }
}

/// What `utf16_slice` gives for the UTF-16 range `start..end` of `s`.
pub open spec fn utf16_slice_spec(s: Seq<char>, start: usize, end: usize) -> Result<
    Seq<char>,
    PositionError,
> {
    match js_to_byte(s, start) {
        Err(e) => Err(e),
        Ok(_) => match js_to_byte(s, end) {
            Err(e) => Err(e),
            Ok(_) => Ok(s.subrange(js_char_index(s, start as int), js_char_index(s, end as int))),
        },
    }
}

/// Converts a byte offset to a UTF-16 code unit index (JavaScript position):
/// the UTF-16 length of the chars that start before `byte_offset`.
pub fn byte_to_js_index(text: &str, byte_offset: usize) -> (r: usize)
    ensures
        r == js_offset(text@, chars_before_byte(text@, byte_offset as int)),
{
    let chars = chars_of(text);
    let total = byte_len(text);
    let ghost s = text@;
    proof {
        lemma_offset_zero(s);
    }
    let mut js: usize = 0;
    let mut byte_pos: usize = 0;
    let mut i: usize = 0;
    while i < chars.len() && byte_pos < byte_offset
        invariant
            chars@ == s,
            text@ == s,
            total == utf8_length(s),
            0 <= i <= chars.len(),
            byte_pos == crate::text::byte_offset(s, i as int),
            js == js_offset(s, i as int),
            forall|m: int| 0 <= m < i ==> #[trigger] crate::text::byte_offset(s, m) < byte_offset,
        decreases chars.len() - i,
    {
        proof {
            lemma_offset_step(s, i as int);
            lemma_offset_bounds(s, i + 1);
        }
        js = js + char_utf16_width(chars[i]);
        byte_pos = byte_pos + char_utf8_width(chars[i]);
        i = i + 1;
    }
    proof {
        lemma_chars_before_byte_unique(s, byte_offset as int, i as int);
    }
    js
}

/// Converts a UTF-16 code unit index to a byte offset.
pub fn js_index_to_byte(text: &str, js_index: usize) -> (r: Result<usize, PositionError>)
    ensures
        r == js_to_byte(text@, js_index),
{
    let chars = chars_of(text);
    let total = byte_len(text);
    let ghost s = text@;
    proof {
        lemma_offset_zero(s);
    }
    let text_len_utf16 = utf16_len(text);
    if js_index > text_len_utf16 {
        return Err(PositionError::OutOfBounds(js_index, text_len_utf16));
    }
    let mut current_js: usize = 0;
    let mut byte_pos: usize = 0;
    let mut i: usize = 0;
    while i < chars.len()
        invariant
            chars@ == s,
            text@ == s,
            total == utf8_length(s),
            text_len_utf16 == utf16_length(s),
            js_index <= text_len_utf16,
            0 <= i <= chars.len(),
            byte_pos == byte_offset(s, i as int),
            current_js == js_offset(s, i as int),
            current_js <= js_index,
            forall|m: int| 0 <= m < i ==> #[trigger] js_offset(s, m) < js_index,
        decreases chars.len() - i,
    {
        proof {
            lemma_offset_step(s, i as int);
            lemma_offset_bounds(s, i + 1);
        }
        if current_js == js_index {
            proof {
                lemma_js_char_index_unique(s, js_index as int, i as int);
            }
            return Ok(byte_pos);
        }
        let units = char_utf16_width(chars[i]);
        if current_js + units > js_index {
            proof {
                assert forall|k: int| 0 <= k <= s.len() implies #[trigger] js_offset(s, k)
                    != js_index by {
                    if k <= i {
                        lemma_offset_monotonic(s, k, i as int);
                    } else {
                        lemma_offset_monotonic(s, i + 1, k);
                    }
                }
            }
            return Err(PositionError::SplitsSurrogatePair(js_index));
        }
        current_js = current_js + units;
        byte_pos = byte_pos + char_utf8_width(chars[i]);
        i = i + 1;
    }
    proof {
        lemma_offset_full(s);
        lemma_js_char_index_unique(s, js_index as int, s.len() as int);
    }
    Ok(byte_pos)
}

/// Returns the UTF-16 length of a string (number of code units).
pub fn utf16_len(text: &str) -> (r: usize)
    ensures
        r == utf16_length(text@),
{
    let chars = chars_of(text);
    let total = byte_len(text);
    let ghost s = text@;
    proof {
        lemma_offset_zero(s);
    }
    let mut n: usize = 0;
    let mut i: usize = 0;
    while i < chars.len()
        invariant
            chars@ == s,
            text@ == s,
            total == utf8_length(s),
            0 <= i <= chars.len(),
            n == js_offset(s, i as int),
        decreases chars.len() - i,
    {
        proof {
            lemma_offset_step(s, i as int);
            lemma_offset_bounds(s, i + 1);
        }
        n = n + char_utf16_width(chars[i]);
        i = i + 1;
    }
    proof {
        lemma_offset_full(s);
    }
    n
}

/// Extracts the substring at the given UTF-16 code unit range.
pub fn utf16_slice(text: &str, start: usize, end: usize) -> (r: Result<&str, PositionError>)
    requires
        js_to_byte(text@, start) is Ok && js_to_byte(text@, end) is Ok ==> start <= end,
    ensures
        match utf16_slice_spec(text@, start, end) {
            Ok(v) => r matches Ok(x) && x@ == v,
            Err(e) => r == Err::<&str, PositionError>(e),
        },
{
    let ghost s = text@;
    let total = byte_len(text);
    let start_byte = match js_index_to_byte(text, start) {
        Ok(b) => b,
        Err(e) => return Err(e),
    };
    let end_byte = match js_index_to_byte(text, end) {
        Ok(b) => b,
        Err(e) => return Err(e),
    };
    let ghost i = js_char_index(s, start as int);
    let ghost k = js_char_index(s, end as int);
    proof {
        if k < i {
            lemma_offset_monotonic(s, k, i);
        }
        lemma_offset_bounds(s, i);
        lemma_offset_bounds(s, k);
    }
    Ok(str_subrange(text, start_byte, end_byte, Ghost(i), Ghost(k)))
}

/// `s` with every CRLF pair and every remaining lone CR turned into LF.
pub open spec fn normalized_line_endings(s: Seq<char>) -> Seq<char>
    decreases s.len(),
{
    if s.len() == 0 {
        Seq::empty()
    } else if s[0] == '\r' && s.len() >= 2 && s[1] == '\n' {
        seq!['\n'] + normalized_line_endings(s.skip(2))
    } else if s[0] == '\r' {
        seq!['\n'] + normalized_line_endings(s.drop_first())
    } else {
        seq![s[0]] + normalized_line_endings(s.drop_first())
    }
}

/// A text without CR is already normalized.
pub proof fn lemma_normalize_without_cr(s: Seq<char>)
    requires
        !s.contains('\r'),
    ensures
        normalized_line_endings(s) == s,
    decreases s.len(),
{
    if s.len() > 0 {
        assert(s[0] != '\r');
        assert(!s.drop_first().contains('\r')) by {
            if s.drop_first().contains('\r') {
                let k = choose|k: int| 0 <= k < s.drop_first().len() && s.drop_first()[k] == '\r';
                assert(s[k + 1] == '\r');
            }
        }
        lemma_normalize_without_cr(s.drop_first());
        assert(s =~= seq![s[0]] + s.drop_first());
    }
}

/// Normalizing leaves no CR in the text.
pub proof fn lemma_normalized_has_no_cr(s: Seq<char>)
    ensures
        !normalized_line_endings(s).contains('\r'),
    decreases s.len(),
{
    if s.len() > 0 {
        let n = normalized_line_endings(s);
        if s[0] == '\r' && s.len() >= 2 && s[1] == '\n' {
            lemma_normalized_has_no_cr(s.skip(2));
        } else {
            lemma_normalized_has_no_cr(s.drop_first());
        }
        if n.contains('\r') {
            let k = choose|k: int| 0 <= k < n.len() && n[k] == '\r';
            if k > 0 {
                if s[0] == '\r' && s.len() >= 2 && s[1] == '\n' {
                    assert(normalized_line_endings(s.skip(2))[k - 1] == '\r');
                } else {
                    assert(normalized_line_endings(s.drop_first())[k - 1] == '\r');
                }
            }
        }
    }
}

/// Normalizing twice is the same as normalizing once.
pub proof fn lemma_normalize_idempotent(s: Seq<char>)
    ensures
        normalized_line_endings(normalized_line_endings(s)) == normalized_line_endings(s),
{
    lemma_normalized_has_no_cr(s);
    lemma_normalize_without_cr(normalized_line_endings(s));
}

/// Normalizes CRLF (and lone CR) line endings to LF for consistent position
/// handling; borrows the text when it holds no CR.
pub fn normalize_line_endings(text: &str) -> (r: Cow<'_, str>)
    ensures
        r@ == normalized_line_endings(text@),
        !text@.contains('\r') ==> (r matches Cow::Borrowed(b) && b == text),
        text@.contains('\r') ==> r matches Cow::Owned(_),
{
    let chars = chars_of(text);
    let ghost s = text@;
    let mut has_cr = false;
    let mut i: usize = 0;
    while i < chars.len()
        invariant
            chars@ == s,
            0 <= i <= chars.len(),
            has_cr <==> exists|k: int| 0 <= k < i && chars@[k] == '\r',
        decreases chars.len() - i,
    {
        if chars[i] == '\r' {
            has_cr = true;
        }
        i = i + 1;
    }
    if !has_cr {
        proof {
            assert(!s.contains('\r'));
            lemma_normalize_without_cr(s);
        }
        return Cow::Borrowed(text);
    }
    let mut out = String::new();
    let mut i: usize = 0;
    proof {
        assert(s.skip(0) =~= s);
    }
    while i < chars.len()
        invariant
            chars@ == s,
            0 <= i <= chars.len(),
            out@ + normalized_line_endings(s.skip(i as int)) == normalized_line_endings(s),
        decreases chars.len() - i,
    {
        let ghost rest = s.skip(i as int);
        let ghost before = out@;
        assert(rest[0] == s[i as int]);
        if chars[i] == '\r' {
            push_char(&mut out, '\n');
            if i + 1 < chars.len() && chars[i + 1] == '\n' {
                assert(rest[1] == s[i + 1]);
                assert(rest.skip(2) =~= s.skip(i + 2));
                i = i + 2;
            } else {
                assert(rest.drop_first() =~= s.skip(i + 1));
                i = i + 1;
            }
        } else {
            push_char(&mut out, chars[i]);
            assert(rest.drop_first() =~= s.skip(i + 1));
            i = i + 1;
        }
        assert(out@ + normalized_line_endings(s.skip(i as int)) =~= before + normalized_line_endings(rest));
    }
    proof {
        assert(s.skip(chars.len() as int) =~= Seq::<char>::empty());
        assert(out@ + Seq::<char>::empty() =~= out@);
    }
    Cow::Owned(out)
}

/// Converting the start of any char to a UTF-16 position and back gives it
/// again, and the UTF-16 position of its byte offset is its UTF-16 offset:
/// `js_index_to_byte` and `byte_to_js_index` are inverse on char boundaries.
pub proof fn lemma_position_round_trip(s: Seq<char>, k: int)
    requires
        0 <= k <= s.len(),
        utf8_length(s) <= usize::MAX,
    ensures
        js_to_byte(s, js_offset(s, k) as usize) == Ok::<usize, PositionError>(
            byte_offset(s, k) as usize,
        ),
        chars_before_byte(s, byte_offset(s, k) as int) == k,
{
    lemma_offset_bounds(s, k);
    lemma_js_char_index_unique(s, js_offset(s, k) as int, k);
    assert forall|m: int| 0 <= m < k implies #[trigger] byte_offset(s, m) < byte_offset(s, k) by {
        lemma_offset_monotonic(s, m, k);
    }
    lemma_chars_before_byte_unique(s, byte_offset(s, k) as int, k);
}

/// UTF-16 offsets inside a part `s[from..to]` of a text are the text's
/// offsets shifted by the part's start.
pub proof fn lemma_subtext_offsets(s: Seq<char>, from: int, to: int, i: int)
    requires
        0 <= from <= to <= s.len(),
        0 <= i <= to - from,
    ensures
        js_offset(s.subrange(from, to), i) == js_offset(s, from + i) - js_offset(s, from),
{
    let t = s.subrange(from, to);
    reveal(js_offset);
    assert(s.take(from + i) =~= s.take(from) + t.take(i));
    lemma_utf16_len_append(s.take(from), t.take(i));
}

/// Cutting a UTF-16 range out of a part `s[from..to]` of a text gives what
/// cutting the shifted range out of the text gives.
pub proof fn lemma_subtext_slice(s: Seq<char>, from: int, to: int, a: usize, b: usize)
    requires
        0 <= from <= to <= s.len(),
        a <= b <= utf16_length(s.subrange(from, to)),
        js_offset(s, from) + b <= usize::MAX,
    ensures
        ({
            let t = s.subrange(from, to);
            let off = js_offset(s, from) as int;
            &&& utf16_slice_spec(t, a, b) is Ok <==> utf16_slice_spec(
                s,
                (a + off) as usize,
                (b + off) as usize,
            ) is Ok
            &&& utf16_slice_spec(t, a, b) is Ok ==> utf16_slice_spec(t, a, b)
                == utf16_slice_spec(s, (a + off) as usize, (b + off) as usize)
        }),
{
    let t = s.subrange(from, to);
    let off = js_offset(s, from) as int;
    lemma_offset_full(t);
    lemma_subtext_offsets(s, from, to, to - from);
    lemma_offset_bounds(s, to);
    lemma_subtext_boundary(s, from, to, a as int);
    lemma_subtext_boundary(s, from, to, b as int);
    if is_js_boundary(t, a as int) && is_js_boundary(t, b as int) {
        let ia = js_char_index(t, a as int);
        let ib = js_char_index(t, b as int);
        assert(0 <= ia <= t.len() && js_offset(t, ia) == a);
        assert(0 <= ib <= t.len() && js_offset(t, ib) == b);
        if ib < ia {
            lemma_offset_monotonic(t, ib, ia);
        }
        assert(t.subrange(ia, ib) =~= s.subrange(from + ia, from + ib));
    }
}

/// A UTF-16 position within a part `s[from..to]` is a char start of the part
/// exactly when the shifted position is a char start of the text, at the
/// shifted char index.
proof fn lemma_subtext_boundary(s: Seq<char>, from: int, to: int, a: int)
    requires
        0 <= from <= to <= s.len(),
        0 <= a <= utf16_length(s.subrange(from, to)),
    ensures
        is_js_boundary(s.subrange(from, to), a) <==> is_js_boundary(s, a + js_offset(s, from)),
        is_js_boundary(s.subrange(from, to), a) ==> js_char_index(s, a + js_offset(s, from))
            == from + js_char_index(s.subrange(from, to), a),
{
    let t = s.subrange(from, to);
    let off = js_offset(s, from) as int;
    lemma_offset_full(t);
    lemma_subtext_offsets(s, from, to, to - from);
    if is_js_boundary(t, a) {
        let i = js_char_index(t, a);
        lemma_subtext_offsets(s, from, to, i);
        lemma_js_char_index_unique(s, a + off, from + i);
    }
    if is_js_boundary(s, a + off) {
        let m = js_char_index(s, a + off);
        if m < from {
            lemma_offset_monotonic(s, m, from);
        }
        if m > to {
            lemma_offset_monotonic(s, to, m);
        }
        lemma_subtext_offsets(s, from, to, m - from);
        lemma_js_char_index_unique(t, a, m - from);
    }
}

} // verus!
