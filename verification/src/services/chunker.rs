//! Text chunking for large documents.
//!
//! A document that is too long for one request is split into chunks of about
//! `target_size` chars that end at a paragraph or sentence boundary. Each chunk
//! is extended by `overlap_size` UTF-16 units on each side for context (to the
//! nearest char boundary outwards, cut off at the ends of the text); only its
//! primary region (the part without the overlap) is used for edit reporting, so
//! that edits are not reported twice.

use std::ops::Range;
use vstd::prelude::*;
use crate::models::edit::Edit;
use crate::services::position::{lemma_subtext_offsets, lemma_subtext_slice, utf16_slice_spec};
use crate::services::validator::edit_is_valid;
use crate::text::{
    byte_char_index,
    byte_len, byte_offset, char_utf16_width, char_utf8_width, chars_of, is_byte_boundary,
    is_js_boundary, js_offset, lemma_byte_char_index_unique, lemma_offset_bounds, lemma_offset_full, utf16_length,
    lemma_offset_monotonic, lemma_offset_step, lemma_offset_zero, str_subrange, utf8_length, utf8_width, utf16_width,
};

verus! {

/// Configuration for the text chunker.
#[derive(Debug, Clone, Copy)]
pub struct ChunkingOptions {
    /// Target chunk size in chars.
    pub target_size: usize,
    /// Overlap on each side in UTF-16 code units.
    pub overlap_size: usize,
}

impl Default for ChunkingOptions {
    fn default() -> (r: Self)
        ensures
            r.target_size == 3500,
            r.overlap_size == 400,
    {
        ChunkingOptions { target_size: 3_500, overlap_size: 400 }
    }
}

/// A chunk of a document, with what is needed to map its edits back.
#[derive(Debug)]
pub struct Chunk {
    /// The chunk text, overlap regions included.
    pub text: String,
    /// Byte offset of the chunk's start in the full document.
    pub doc_start_byte: usize,
    /// The primary region, in UTF-16 units relative to the chunk's start:
    /// edits inside it are the ones this chunk reports.
    pub primary_range: Range<usize>,
}

impl Clone for Chunk {
    fn clone(&self) -> (r: Self)
        ensures
            r@ == self@,
    {
        Chunk {
            text: self.text.clone(),
            doc_start_byte: self.doc_start_byte,
            primary_range: self.primary_range.start..self.primary_range.end,
        }
    }
}

impl View for Chunk {
    type V = (Seq<char>, int, int, int);

    open spec fn view(&self) -> (Seq<char>, int, int, int) {
        (
            self.text@,
            self.doc_start_byte as int,
            self.primary_range.start as int,
            self.primary_range.end as int,
        )
    }
}

/// The greatest char index of `s` whose byte offset is at most `b`.
pub open spec fn floor_char(s: Seq<char>, b: int) -> int {
    choose|r: int|
        0 <= r <= s.len() && #[trigger] byte_offset(s, r) <= b && (r == s.len() || b
            < byte_offset(s, r + 1))
}

/// `floor_char` is well defined for every non-negative byte offset.
pub proof fn lemma_floor_char(s: Seq<char>, b: int, r: int)
    requires
        0 <= r <= s.len(),
        byte_offset(s, r) <= b,
        r == s.len() || b < byte_offset(s, r + 1),
    ensures
        floor_char(s, b) == r,
{
    let r2 = floor_char(s, b);
    assert(0 <= r2 <= s.len() && byte_offset(s, r2) <= b && (r2 == s.len() || b < byte_offset(
        s,
        r2 + 1,
    )));
    if r2 < r {
        lemma_offset_monotonic(s, r2 + 1, r);
    } else if r < r2 {
        lemma_offset_monotonic(s, r + 1, r2);
    }
}

/// Every non-negative byte offset has a floor char.
pub proof fn lemma_floor_char_exists(s: Seq<char>, b: int)
    requires
        0 <= b,
    ensures
        0 <= floor_char(s, b) <= s.len(),
        byte_offset(s, floor_char(s, b)) <= b,
        floor_char(s, b) == s.len() || b < byte_offset(s, floor_char(s, b) + 1),
    decreases s.len(),
{
    // Find the witness by walking up from 0.
    lemma_offset_zero(s);
    lemma_floor_walk(s, b, 0);
}

proof fn lemma_floor_walk(s: Seq<char>, b: int, r: int)
    requires
        0 <= r <= s.len(),
        byte_offset(s, r) <= b,
    ensures
        0 <= floor_char(s, b) <= s.len(),
        byte_offset(s, floor_char(s, b)) <= b,
        floor_char(s, b) == s.len() || b < byte_offset(s, floor_char(s, b) + 1),
    decreases s.len() - r,
{
    if r == s.len() || b < byte_offset(s, r + 1) {
        lemma_floor_char(s, b, r);
    } else {
        lemma_floor_walk(s, b, r + 1);
    }
}

/// `floor_char` grows with the byte offset.
pub proof fn lemma_floor_char_monotonic(s: Seq<char>, b1: int, b2: int)
    requires
        0 <= b1 <= b2,
    ensures
        floor_char(s, b1) <= floor_char(s, b2),
{
    lemma_floor_char_exists(s, b1);
    lemma_floor_char_exists(s, b2);
    let f1 = floor_char(s, b1);
    let f2 = floor_char(s, b2);
    if f1 > f2 {
        lemma_offset_monotonic(s, f2 + 1, f1);
    }
}

/// A byte boundary's floor is its char, and the char's offset is the boundary.
pub proof fn lemma_floor_char_of_boundary(s: Seq<char>, b: int)
    requires
        is_byte_boundary(s, b),
    ensures
        0 <= floor_char(s, b) <= s.len(),
        byte_offset(s, floor_char(s, b)) == b,
{
    let k = choose|k: int| 0 <= k <= s.len() && #[trigger] byte_offset(s, k) == b;
    lemma_floor_char_of_offset(s, k);
}

/// A char boundary's floor is its own char.
pub proof fn lemma_floor_char_of_offset(s: Seq<char>, k: int)
    requires
        0 <= k <= s.len(),
    ensures
        floor_char(s, byte_offset(s, k) as int) == k,
{
    if k < s.len() {
        lemma_offset_monotonic(s, k, k + 1);
    }
    lemma_floor_char(s, byte_offset(s, k) as int, k);
}

/// The smaller of two integers.
pub open spec fn min_int(a: int, b: int) -> int {
    if a <= b {
        a
    } else {
        b
    }
}

/// Byte offset reached by advancing `c` chars from byte `start`; the end of
/// the text when at most `c` chars remain.
#[verifier::opaque]
pub open spec fn advance_chars_spec(s: Seq<char>, start: int, c: int) -> int {
    let i0 = floor_char(s, start);
    if i0 + c < s.len() {
        byte_offset(s, i0 + c) as int
    } else {
        utf8_length(s) as int
    }
}

/// The first `k` in `from..to - 1` where a blank line ("\n\n") starts.
pub open spec fn first_para_break(s: Seq<char>, from: int, to: int) -> Option<int>
    decreases to - from,
{
    if from < 0 || from + 1 >= to {
        None
    } else if s[from] == '\n' && s[from + 1] == '\n' {
        Some(from)
    } else {
        first_para_break(s, from + 1, to)
    }
}

/// Char `k` is '.', '!' or '?' followed by a space, a newline or the end of `s`.
pub open spec fn ends_sentence(s: Seq<char>, k: int) -> bool {
    &&& (s[k] == '.' || s[k] == '!' || s[k] == '?')
    &&& (k + 1 >= s.len() || s[k + 1] == ' ' || s[k + 1] == '\n')
}

/// The first `k` in `from..to` that ends a sentence.
pub open spec fn first_sentence_end(s: Seq<char>, from: int, to: int) -> Option<int>
    decreases to - from,
{
    if from < 0 || from >= to {
        None
    } else if ends_sentence(s, from) {
        Some(from)
    } else {
        first_sentence_end(s, from + 1, to)
    }
}

/// The char index that ends the window searched for a boundary after byte
/// `pos`: the last char start at or before `pos + 800` (capped at the end).
pub open spec fn lookahead_char(s: Seq<char>, pos: int) -> int {
    floor_char(s, pos + min_int(utf8_length(s) - pos, 800))
}

/// The next paragraph or sentence boundary after byte `pos`: the end of the
/// first blank line in the window, else the end of the first sentence ending
/// in it, else the end of the window.
#[verifier::opaque]
pub open spec fn find_semantic_boundary_spec(s: Seq<char>, pos: int) -> int {
    if pos >= utf8_length(s) {
        utf8_length(s) as int
    } else {
        let q = floor_char(s, pos);
        let j = lookahead_char(s, pos);
        match first_para_break(s, q, j) {
            Some(k) => byte_offset(s, k) + 2int,
            None => match first_sentence_end(s, q, j) {
                Some(k) => byte_offset(s, k + 1) as int,
                None => byte_offset(s, j) as int,
            },
        }
    }
}

/// The greatest char index at or below `k` whose UTF-16 offset is at most
/// `target` (0 when there is none).
pub open spec fn retreat_char(s: Seq<char>, k: int, target: int) -> int
    decreases k,
{
    if k > 0 && js_offset(s, k) > target {
        retreat_char(s, k - 1, target)
    } else {
        k
    }
}

/// The least char index at or above `k` whose UTF-16 offset is at least
/// `target` (the end of `s` when there is none).
pub open spec fn advance_char(s: Seq<char>, k: int, target: int) -> int
    decreases s.len() - k,
{
    if k < s.len() && js_offset(s, k) < target {
        advance_char(s, k + 1, target)
    } else {
        k
    }
}

/// The UTF-16 position `overlap` units before `p`, or the start of the text.
pub open spec fn back_by(p: int, overlap: int) -> int {
    if p >= overlap {
        p - overlap
    } else {
        0
    }
}

/// The UTF-16 position `overlap` units after `q`, or the end of `s`.
pub open spec fn on_by(s: Seq<char>, q: int, overlap: int) -> int {
    min_int(q + overlap, utf16_length(s) as int)
}

proof fn lemma_retreat_char(s: Seq<char>, k: int, target: int)
    requires
        0 <= k <= s.len(),
        0 <= target,
    ensures
        0 <= retreat_char(s, k, target) <= k,
        js_offset(s, retreat_char(s, k, target)) <= target,
        retreat_char(s, k, target) == k || target < js_offset(s, retreat_char(s, k, target) + 1),
    decreases k,
{
    if k > 0 && js_offset(s, k) > target {
        lemma_retreat_char(s, k - 1, target);
    } else if k == 0 {
        lemma_offset_zero(s);
    }
}

proof fn lemma_advance_char(s: Seq<char>, k: int, target: int)
    requires
        0 <= k <= s.len(),
    ensures
        k <= advance_char(s, k, target) <= s.len(),
        advance_char(s, k, target) == s.len() || target <= js_offset(s, advance_char(s, k, target)),
        advance_char(s, k, target) == k || js_offset(s, advance_char(s, k, target) - 1) < target,
    decreases s.len() - k,
{
    if k < s.len() && js_offset(s, k) < target {
        lemma_advance_char(s, k + 1, target);
    }
}

proof fn lemma_first_para_break(s: Seq<char>, from: int, to: int)
    requires
        to <= s.len(),
    ensures
        first_para_break(s, from, to) matches Some(k) ==> from <= k && k + 1 < to && s[k] == '\n'
            && s[k + 1] == '\n',
    decreases to - from,
{
    if from >= 0 && from + 1 < to && !(s[from] == '\n' && s[from + 1] == '\n') {
        lemma_first_para_break(s, from + 1, to);
    }
}

proof fn lemma_first_sentence_end(s: Seq<char>, from: int, to: int)
    requires
        to <= s.len(),
    ensures
        first_sentence_end(s, from, to) matches Some(k) ==> from <= k < to && ends_sentence(s, k),
    decreases to - from,
{
    if from >= 0 && from < to && !ends_sentence(s, from) {
        lemma_first_sentence_end(s, from + 1, to);
    }
}

/// Where the primary region of the chunk starting at byte `pos` ends.
#[verifier::opaque]
pub open spec fn next_chunk_pos(s: Seq<char>, target: int, pos: int) -> int {
    min_int(
        find_semantic_boundary_spec(s, advance_chars_spec(s, pos, target)),
        utf8_length(s) as int,
    )
}

/// The chunk whose primary region starts at byte `pos`, viewed as (text,
/// start byte in the document, primary region start, primary region end);
/// the primary region is in UTF-16 units relative to the chunk's start. The
/// chunk starts at the last char start at or before `overlap` UTF-16 units
/// before the primary region, and ends at the first char end at or after
/// `overlap` units past it (both cut off at the ends of the text).
#[verifier::opaque]
pub open spec fn chunk_at(s: Seq<char>, target: int, overlap: int, pos: int) -> (
    Seq<char>,
    int,
    int,
    int,
) {
    chunk_view(s, floor_char(s, pos), floor_char(s, next_chunk_pos(s, target, pos)), overlap)
}

/// The chunk whose primary region runs from char `i` to char `j`, viewed as
/// in `chunk_at`.
#[verifier::opaque]
pub open spec fn chunk_view(s: Seq<char>, i: int, j: int, overlap: int) -> (Seq<char>, int, int, int) {
    let a = retreat_char(s, i, back_by(js_offset(s, i) as int, overlap));
    let b = advance_char(s, j, on_by(s, js_offset(s, j) as int, overlap));
    (
        s.subrange(a, b),
        byte_offset(s, a) as int,
        js_offset(s, i) - js_offset(s, a),
        js_offset(s, j) - js_offset(s, a),
    )
}

/// The chunks whose primary regions start at byte `pos` and after.
#[verifier::opaque]
pub open spec fn chunks_from(s: Seq<char>, target: int, overlap: int, pos: int) -> Seq<
    (Seq<char>, int, int, int),
>
    decreases utf8_length(s) - pos,
{
    if pos >= utf8_length(s) {
        Seq::empty()
    } else {
        let pe = next_chunk_pos(s, target, pos);
        if pe >= utf8_length(s) || pe <= pos {
            seq![chunk_at(s, target, overlap, pos)]
        } else {
            seq![chunk_at(s, target, overlap, pos)] + chunks_from(s, target, overlap, pe)
        }
    }
}

/// The chunks `chunk_text` gives for `s`.
pub open spec fn chunk_text_spec(s: Seq<char>, target: int, overlap: int) -> Seq<
    (Seq<char>, int, int, int),
> {
    if s.len() <= target + 2 * overlap {
        seq![(s, 0, 0, utf16_length(s) as int)]
    } else {
        chunks_from(s, target, overlap, 0)
    }
}

proof fn lemma_advance_chars_range(s: Seq<char>, pos: int, c: int)
    requires
        is_byte_boundary(s, pos),
        0 <= c,
    ensures
        pos <= advance_chars_spec(s, pos, c) <= utf8_length(s),
        is_byte_boundary(s, advance_chars_spec(s, pos, c)),
{
    reveal(advance_chars_spec);
    lemma_floor_char_of_boundary(s, pos);
    let i0 = floor_char(s, pos);
    lemma_offset_full(s);
    lemma_offset_monotonic(s, i0, s.len() as int);
    if i0 + c < s.len() {
        lemma_offset_monotonic(s, i0, i0 + c);
        lemma_offset_monotonic(s, i0 + c, s.len() as int);
        lemma_byte_char_index_unique(s, byte_offset(s, i0 + c) as int, i0 + c);
    } else {
        lemma_byte_char_index_unique(s, utf8_length(s) as int, s.len() as int);
    }
}

proof fn lemma_semantic_boundary_range(s: Seq<char>, p: int)
    requires
        is_byte_boundary(s, p),
    ensures
        is_byte_boundary(s, find_semantic_boundary_spec(s, p)),
        find_semantic_boundary_spec(s, p) <= utf8_length(s),
        p >= utf8_length(s) ==> find_semantic_boundary_spec(s, p) == utf8_length(s),
        p < utf8_length(s) ==> p < find_semantic_boundary_spec(s, p),
{
    reveal(find_semantic_boundary_spec);
    lemma_offset_full(s);
    lemma_floor_char_of_boundary(s, p);
    if p >= utf8_length(s) {
        lemma_byte_char_index_unique(s, utf8_length(s) as int, s.len() as int);
    } else {
        let q = floor_char(s, p);
        let w = p + min_int(utf8_length(s) - p, 800);
        lemma_floor_char_exists(s, w);
        let j = lookahead_char(s, p);
        if q == s.len() {
            assert(false);
        }
        // The window holds at least the char at `p`.
        lemma_offset_step(s, q);
        lemma_offset_monotonic(s, q + 1, s.len() as int);
        lemma_floor_char_of_offset(s, q + 1);
        lemma_floor_char_monotonic(s, byte_offset(s, q + 1) as int, w);
        lemma_offset_monotonic(s, q + 1, j);
        lemma_offset_monotonic(s, j, s.len() as int);
        lemma_first_para_break(s, q, j);
        lemma_first_sentence_end(s, q, j);
        match first_para_break(s, q, j) {
            Some(k) => {
                lemma_offset_step(s, k);
                lemma_offset_step(s, k + 1);
                assert(utf8_width('\n') == 1);
                lemma_offset_monotonic(s, q, k + 2);
                lemma_offset_monotonic(s, k + 2, j);
                assert(byte_offset(s, k + 2) == byte_offset(s, k) + 2);
                lemma_byte_char_index_unique(s, byte_offset(s, k + 2) as int, k + 2);
            },
            None => match first_sentence_end(s, q, j) {
                Some(k) => {
                    lemma_offset_monotonic(s, q, k + 1);
                    lemma_offset_monotonic(s, k + 1, j);
                    lemma_byte_char_index_unique(s, byte_offset(s, k + 1) as int, k + 1);
                },
                None => {
                    lemma_byte_char_index_unique(s, byte_offset(s, j) as int, j);
                },
            },
        }
    }
}

/// One step of chunking.
proof fn lemma_chunk_step(s: Seq<char>, target: int, pos: int)
    requires
        0 <= target,
        0 <= pos < utf8_length(s),
        is_byte_boundary(s, pos),
    ensures
        is_byte_boundary(s, advance_chars_spec(s, pos, target)),
        pos < next_chunk_pos(s, target, pos) <= utf8_length(s),
        next_chunk_pos(s, target, pos) == find_semantic_boundary_spec(
            s,
            advance_chars_spec(s, pos, target),
        ),
        is_byte_boundary(s, next_chunk_pos(s, target, pos)),
{
    reveal(next_chunk_pos);
    let ce = advance_chars_spec(s, pos, target);
    lemma_advance_chars_range(s, pos, target);
    lemma_semantic_boundary_range(s, ce);
    lemma_offset_full(s);
    if ce >= utf8_length(s) {
        assert(find_semantic_boundary_spec(s, ce) == utf8_length(s));
    }
}

/// One step of `chunks_from`.
proof fn lemma_chunks_from_unfold(s: Seq<char>, target: int, overlap: int, pos: int)
    ensures
        pos >= utf8_length(s) ==> chunks_from(s, target, overlap, pos) == Seq::<(Seq<char>, int, int, int)>::empty(),
        pos < utf8_length(s) ==> chunks_from(s, target, overlap, pos) == if next_chunk_pos(s, target, pos) >= utf8_length(s)
            || next_chunk_pos(s, target, pos) <= pos {
            seq![chunk_at(s, target, overlap, pos)]
        } else {
            seq![chunk_at(s, target, overlap, pos)] + chunks_from(
                s,
                target,
                overlap,
                next_chunk_pos(s, target, pos),
            )
        },
{
    reveal(chunks_from);
}

/// A text together with the byte and UTF-16 offset of each of its chars.
struct TextIndex {
    chars: Vec<char>,
    /// `starts[i]` is the byte offset of char `i`; `starts[len]` is the text's length.
    starts: Vec<usize>,
    /// `js_starts[i]` is the UTF-16 offset of char `i`.
    js_starts: Vec<usize>,
}

impl TextIndex {
    spec fn wf(&self) -> bool {
        let s = self.chars@;
        &&& self.starts.len() == s.len() + 1
        &&& self.js_starts.len() == s.len() + 1
        &&& forall|i: int| 0 <= i <= s.len() ==> #[trigger] self.starts@[i] == byte_offset(s, i)
        &&& forall|i: int| 0 <= i <= s.len() ==> #[trigger] self.js_starts@[i] == js_offset(s, i)
    }

    fn new(text: &str) -> (ix: TextIndex)
        ensures
            ix.wf(),
            ix.chars@ == text@,
    {
        let chars = chars_of(text);
        let total = byte_len(text);
        let ghost s = text@;
        let mut starts: Vec<usize> = Vec::new();
        let mut js_starts: Vec<usize> = Vec::new();
        let mut b: usize = 0;
        let mut j: usize = 0;
        let mut i: usize = 0;
        proof {
            lemma_offset_zero(s);
        }
        while i < chars.len()
            invariant
                chars@ == s,
                total == utf8_length(s),
                0 <= i <= chars.len(),
                b == byte_offset(s, i as int),
                j == js_offset(s, i as int),
                starts.len() == i,
                js_starts.len() == i,
                forall|m: int| 0 <= m < i ==> #[trigger] starts@[m] == byte_offset(s, m),
                forall|m: int| 0 <= m < i ==> #[trigger] js_starts@[m] == js_offset(s, m),
            decreases chars.len() - i,
        {
            starts.push(b);
            js_starts.push(j);
            proof {
                lemma_offset_step(s, i as int);
                lemma_offset_bounds(s, i + 1);
            }
            b = b + char_utf8_width(chars[i]);
            j = j + char_utf16_width(chars[i]);
            i = i + 1;
        }
        starts.push(b);
        js_starts.push(j);
        TextIndex { chars, starts, js_starts }
    }

    /// Whether byte offset `b` is a char boundary.
    fn is_boundary(&self, b: usize) -> (r: bool)
        requires
            self.wf(),
        ensures
            r == is_byte_boundary(self.chars@, b as int),
    {
        let k = self.floor_char(b);
        proof {
            if is_byte_boundary(self.chars@, b as int) {
                lemma_floor_char_of_boundary(self.chars@, b as int);
            }
        }
        self.starts[k] == b
    }

    /// The greatest char index whose byte offset is at most `b`.
    fn floor_char(&self, b: usize) -> (r: usize)
        requires
            self.wf(),
        ensures
            r == floor_char(self.chars@, b as int),
            r <= self.chars.len(),
    {
        let ghost s = self.chars@;
        let n = self.chars.len();
        proof {
            lemma_offset_zero(s);
            assert(self.starts@[0] == byte_offset(s, 0));
        }
        // The answer lies in lo..=hi.
        let mut lo: usize = 0;
        let mut hi: usize = n;
        if self.starts[n] <= b {
            lo = n;
        }
        while lo < hi
            invariant
                self.wf(),
                s == self.chars@,
                n == s.len(),
                0 <= lo <= hi <= n,
                self.starts@[lo as int] <= b,
                hi == n ==> (lo == n || b < self.starts@[n as int]),
                hi < n ==> b < self.starts@[hi + 1],
            decreases hi - lo,
        {
            let mid = lo + (hi - lo + 1) / 2;
            if self.starts[mid] <= b {
                lo = mid;
            } else {
                hi = mid - 1;
            }
        }
        proof {
            lemma_floor_char(s, b as int, lo as int);
        }
        lo
    }
}

/// Advances byte position `start` by `char_count` chars, or to the end of the
/// text when at most that many remain.
fn advance_chars(text: &TextIndex, start: usize, char_count: usize) -> (r: usize)
    requires
        text.wf(),
    ensures
        r == advance_chars_spec(text.chars@, start as int, char_count as int),
{
    reveal(advance_chars_spec);
    let ghost s = text.chars@;
    let n = text.chars.len();
    let i0 = text.floor_char(start);
    proof {
        lemma_offset_full(s);
    }
    if char_count < n - i0 {
        text.starts[i0 + char_count]
    } else {
        text.starts[n]
    }
}

/// The greatest char index at or below `k` whose UTF-16 offset is at most
/// `target`.
fn retreat_char_index(text: &TextIndex, k: usize, target: usize) -> (r: usize)
    requires
        text.wf(),
        k <= text.chars.len(),
    ensures
        r == retreat_char(text.chars@, k as int, target as int),
{
    let mut i = k;
    while i > 0 && text.js_starts[i] > target
        invariant
            text.wf(),
            i <= k <= text.chars.len(),
            retreat_char(text.chars@, i as int, target as int) == retreat_char(
                text.chars@,
                k as int,
                target as int,
            ),
        decreases i,
    {
        i = i - 1;
    }
    i
}

/// The least char index at or above `k` whose UTF-16 offset is at least
/// `target`, or the end of the text.
fn advance_char_index(text: &TextIndex, k: usize, target: usize) -> (r: usize)
    requires
        text.wf(),
        k <= text.chars.len(),
    ensures
        r == advance_char(text.chars@, k as int, target as int),
{
    let n = text.chars.len();
    let mut i = k;
    while i < n && text.js_starts[i] < target
        invariant
            text.wf(),
            n == text.chars.len(),
            k <= i <= n,
            advance_char(text.chars@, i as int, target as int) == advance_char(
                text.chars@,
                k as int,
                target as int,
            ),
        decreases n - i,
    {
        i = i + 1;
    }
    i
}

/// The first blank line starting in `from..to - 1`, as a char index.
fn find_para_break(text: &TextIndex, from: usize, to: usize) -> (r: Option<usize>)
    requires
        text.wf(),
        from <= to <= text.chars.len(),
    ensures
        r matches Some(k) ==> first_para_break(text.chars@, from as int, to as int) == Some(k as int),
        r is None ==> first_para_break(text.chars@, from as int, to as int) is None,
{
    let ghost s = text.chars@;
    let mut k = from;
    while k < to && to - k > 1
        invariant
            s == text.chars@,
            from <= k <= to,
            to <= s.len(),
            first_para_break(s, from as int, to as int) == first_para_break(s, k as int, to as int),
        decreases to - k,
    {
        if text.chars[k] == '\n' && text.chars[k + 1] == '\n' {
            return Some(k);
        }
        k = k + 1;
    }
    None
}

/// The first sentence end in `from..to`, as a char index.
fn find_sentence_end(text: &TextIndex, from: usize, to: usize) -> (r: Option<usize>)
    requires
        text.wf(),
        from <= to <= text.chars.len(),
    ensures
        r matches Some(k) ==> first_sentence_end(text.chars@, from as int, to as int) == Some(
            k as int,
        ),
        r is None ==> first_sentence_end(text.chars@, from as int, to as int) is None,
{
    let ghost s = text.chars@;
    let n = text.chars.len();
    let mut k = from;
    while k < to
        invariant
            s == text.chars@,
            n == s.len(),
            from <= k <= to,
            to <= n,
            first_sentence_end(s, from as int, to as int) == first_sentence_end(
                s,
                k as int,
                to as int,
            ),
        decreases to - k,
    {
        let c = text.chars[k];
        if c == '.' || c == '!' || c == '?' {
            if k + 1 >= n || text.chars[k + 1] == ' ' || text.chars[k + 1] == '\n' {
                return Some(k);
            }
        }
        k = k + 1;
    }
    None
}

/// Finds the next paragraph or sentence boundary after `pos`.
fn find_semantic_boundary(text: &TextIndex, pos: usize) -> (r: usize)
    requires
        text.wf(),
        is_byte_boundary(text.chars@, pos as int),
    ensures
        r == find_semantic_boundary_spec(text.chars@, pos as int),
{
    reveal(find_semantic_boundary_spec);
    let ghost s = text.chars@;
    let n = text.chars.len();
    proof {
        lemma_offset_full(s);
    }
    let len = text.starts[n];
    if pos >= len {
        return len;
    }
    let rest = len - pos;
    let limit = if rest < 800 {
        rest
    } else {
        800
    };
    let q = text.floor_char(pos);
    // The window ends at the last char start at or before `pos + limit`.
    let j = text.floor_char(pos + limit);
    proof {
        lemma_floor_char_monotonic(s, pos as int, pos + limit);
        lemma_floor_char_of_boundary(s, pos as int);
    }
    // Prefer a paragraph boundary (a blank line).
    match find_para_break(text, q, j) {
        Some(k) => {
            proof {
                lemma_first_para_break(s, q as int, j as int);
                lemma_offset_step(s, k as int);
                lemma_offset_step(s, k + 1);
                lemma_offset_bounds(s, k + 2);
                assert(utf8_width('\n') == 1);
            }
            return text.starts[k] + 2;
        },
        None => {},
    }
    // Fall back to a sentence boundary.
    match find_sentence_end(text, q, j) {
        Some(k) => {
            proof {
                lemma_first_sentence_end(s, q as int, j as int);
            }
            return text.starts[k + 1];
        },
        None => {},
    }
    // No boundary found: the end of the window.
    text.starts[j]
}

/// The char positions of the chunk whose primary region starts at byte `pos`
/// are in order.
proof fn lemma_chunk_layout(s: Seq<char>, target: int, overlap: int, pos: int)
    requires
        0 <= target,
        0 <= overlap,
        0 <= pos < utf8_length(s),
        is_byte_boundary(s, pos),
    ensures
        ({
            let i = floor_char(s, pos);
            let j = floor_char(s, next_chunk_pos(s, target, pos));
            let a = retreat_char(s, i, back_by(js_offset(s, i) as int, overlap));
            let b = advance_char(s, j, on_by(s, js_offset(s, j) as int, overlap));
            &&& 0 <= a <= i < j <= b <= s.len()
            &&& byte_offset(s, i) == pos
            &&& byte_offset(s, j) == next_chunk_pos(s, target, pos)
            &&& js_offset(s, a) <= js_offset(s, i) < js_offset(s, j) <= js_offset(s, b)
        }),
{
    let pe = next_chunk_pos(s, target, pos);
    lemma_chunk_step(s, target, pos);
    lemma_floor_char_of_boundary(s, pos);
    lemma_floor_char_of_boundary(s, pe);
    let i = floor_char(s, pos);
    let j = floor_char(s, pe);
    if j <= i {
        lemma_offset_monotonic(s, j, i);
    }
    let a = retreat_char(s, i, back_by(js_offset(s, i) as int, overlap));
    let b = advance_char(s, j, on_by(s, js_offset(s, j) as int, overlap));
    lemma_retreat_char(s, i, back_by(js_offset(s, i) as int, overlap));
    lemma_advance_char(s, j, on_by(s, js_offset(s, j) as int, overlap));
    lemma_offset_monotonic(s, a, i);
    lemma_offset_monotonic(s, i, j);
    lemma_offset_monotonic(s, j, b);
}

/// Where the primary region that starts at byte `pos` ends.
fn primary_end_of(ix: &TextIndex, pos: usize, target_size: usize) -> (r: usize)
    requires
        ix.wf(),
        pos < utf8_length(ix.chars@),
        is_byte_boundary(ix.chars@, pos as int),
    ensures
        r == next_chunk_pos(ix.chars@, target_size as int, pos as int),
        pos < r <= utf8_length(ix.chars@),
        is_byte_boundary(ix.chars@, r as int),
{
    let ghost s = ix.chars@;
    proof {
        lemma_chunk_step(s, target_size as int, pos as int);
        reveal(next_chunk_pos);
        lemma_offset_full(s);
    }
    let n = ix.chars.len();
    let len = ix.starts[n];
    // Find the end of this chunk, then extend it to a semantic boundary.
    let chunk_end = advance_chars(ix, pos, target_size);
    let semantic_end = find_semantic_boundary(ix, chunk_end);
    if semantic_end < len {
        semantic_end
    } else {
        len
    }
}

/// The chunk's first and last char index: `overlap` UTF-16 units before char
/// `i` and after char `j`, moved outwards to char starts.
fn overlap_bounds(ix: &TextIndex, i: usize, j: usize, overlap: usize) -> (r: (usize, usize))
    requires
        ix.wf(),
        i <= j <= ix.chars.len(),
    ensures
        r.0 == retreat_char(ix.chars@, i as int, back_by(js_offset(ix.chars@, i as int) as int, overlap as int)),
        r.1 == advance_char(ix.chars@, j as int, on_by(ix.chars@, js_offset(ix.chars@, j as int) as int, overlap as int)),
{
    let ghost s = ix.chars@;
    let n = ix.chars.len();
    proof {
        lemma_offset_full(s);
        lemma_offset_bounds(s, j as int);
    }
    let p = ix.js_starts[i];
    let q = ix.js_starts[j];
    let len16 = ix.js_starts[n];
    let lo = if p >= overlap {
        p - overlap
    } else {
        0
    };
    let hi = if overlap <= len16 - q {
        q + overlap
    } else {
        len16
    };
    (retreat_char_index(ix, i, lo), advance_char_index(ix, j, hi))
}

/// `chunk_at` spelled out.
proof fn lemma_chunk_at_parts(s: Seq<char>, target: int, overlap: int, pos: int)
    ensures
        ({
            let i = floor_char(s, pos);
            let j = floor_char(s, next_chunk_pos(s, target, pos));
            let a = retreat_char(s, i, back_by(js_offset(s, i) as int, overlap));
            let b = advance_char(s, j, on_by(s, js_offset(s, j) as int, overlap));
            chunk_at(s, target, overlap, pos) == (
                s.subrange(a, b),
                byte_offset(s, a) as int,
                js_offset(s, i) - js_offset(s, a),
                js_offset(s, j) - js_offset(s, a),
            )
        }),
{
    reveal(chunk_at);
    reveal(chunk_view);
}

/// The chunk whose primary region starts at byte `pos`, and the byte offset
/// where that region ends.
#[verifier::rlimit(60)]
fn next_chunk(text: &str, ix: &TextIndex, pos: usize, target_size: usize, overlap_size: usize) -> (r: (Chunk, usize))
    requires
        ix.wf(),
        ix.chars@ == text@,
        pos < utf8_length(text@),
        is_byte_boundary(text@, pos as int),
    ensures
        r.0@ == chunk_at(text@, target_size as int, overlap_size as int, pos as int),
        r.1 == next_chunk_pos(text@, target_size as int, pos as int),
{
    let ghost s = text@;
    let ghost overlap = overlap_size as int;
    proof {
        lemma_chunk_layout(s, target_size as int, overlap, pos as int);
        lemma_offset_full(s);
        lemma_offset_zero(s);
    }
    // Primary region: [pos, primary_end).
    let primary_end = primary_end_of(ix, pos, target_size);
    let i = ix.floor_char(pos);
    let j = ix.floor_char(primary_end);
    // Extend by `overlap_size` UTF-16 units on each side, to char boundaries.
    let (a, b) = overlap_bounds(ix, i, j, overlap_size);
    let p = ix.js_starts[i];
    let q = ix.js_starts[j];
    proof {
        lemma_chunk_at_parts(s, target_size as int, overlap, pos as int);
    }
    let chunk_text = str_subrange(text, ix.starts[a], ix.starts[b], Ghost(a as int), Ghost(b as int)).to_owned();
    // Primary range in UTF-16 units relative to the chunk's start.
    let prefix_utf16 = p - ix.js_starts[a];
    let primary_utf16_len = q - p;
    let chunk = Chunk {
        text: chunk_text,
        doc_start_byte: ix.starts[a],
        primary_range: prefix_utf16..(prefix_utf16 + primary_utf16_len),
    };
    (chunk, primary_end)
}

/// The views of a sequence of chunks.
pub open spec fn chunk_views(chunks: Seq<Chunk>) -> Seq<(Seq<char>, int, int, int)> {
    chunks.map_values(|c: Chunk| c@)
}

/// The chunks of a text longer than one chunk.
fn chunk_loop(text: &str, ix: &TextIndex, target_size: usize, overlap_size: usize) -> (r: Vec<Chunk>)
    requires
        ix.wf(),
        ix.chars@ == text@,
        text@.len() > 0,
    ensures
        chunk_views(r@) == chunks_from(text@, target_size as int, overlap_size as int, 0),
{
    let ghost s = text@;
    let ghost target = target_size as int;
    let ghost overlap = overlap_size as int;
    let n = ix.chars.len();
    proof {
        lemma_offset_full(s);
        lemma_offset_zero(s);
        lemma_offset_monotonic(s, 0, n as int);
        lemma_byte_char_index_unique(s, 0, 0);
    }
    let len = ix.starts[n];
    let mut chunks: Vec<Chunk> = Vec::new();
    let mut pos: usize = 0;
    proof {
        assert(chunk_views(chunks@) + chunks_from(s, target, overlap, 0) =~= chunks_from(
            s,
            target,
            overlap,
            0,
        ));
    }
    loop
        invariant_except_break
            chunk_views(chunks@) + chunks_from(s, target, overlap, pos as int) == chunks_from(
                s,
                target,
                overlap,
                0,
            ),
        invariant
            ix.wf(),
            ix.chars@ == s,
            text@ == s,
            n == s.len(),
            len == utf8_length(s),
            target == target_size,
            overlap == overlap_size,
            pos < len,
            is_byte_boundary(s, pos as int),
        ensures
            chunk_views(chunks@) == chunks_from(s, target, overlap, 0),
        decreases len - pos,
    {
        let (chunk, primary_end) = next_chunk(text, ix, pos, target_size, overlap_size);
        let ghost before = chunk_views(chunks@);
        chunks.push(chunk);
        proof {
            assert(chunk_views(chunks@) =~= before.push(chunk_at(s, target, overlap, pos as int)));
            lemma_chunks_from_unfold(s, target, overlap, pos as int);
            lemma_chunk_step(s, target, pos as int);
        }
        if primary_end >= len {
            proof {
                assert(chunk_views(chunks@) =~= before + chunks_from(s, target, overlap, pos as int));
            }
            break;
        }
        proof {
            assert(before + chunks_from(s, target, overlap, pos as int) =~= chunk_views(chunks@)
                + chunks_from(s, target, overlap, primary_end as int));
        }
        pos = primary_end;
    }
    chunks
}

/// The single chunk of a short text.
fn whole_text_chunk(text: &str, ix: &TextIndex) -> (r: Vec<Chunk>)
    requires
        ix.wf(),
        ix.chars@ == text@,
    ensures
        chunk_views(r@) == seq![(text@, 0int, 0int, utf16_length(text@) as int)],
{
    let n = ix.chars.len();
    proof {
        lemma_offset_full(text@);
    }
    let whole = Chunk { text: text.to_owned(), doc_start_byte: 0, primary_range: 0..ix.js_starts[n] };
    let r = vec![whole];
    proof {
        assert(chunk_views(r@) =~= seq![(text@, 0int, 0int, utf16_length(text@) as int)]);
    }
    r
}

/// Splits text into overlapping chunks at semantic boundaries.
///
/// A text of at most `target_size + 2 * overlap_size` chars is one chunk.
/// Otherwise each chunk's primary region runs from the previous one's end to
/// the first semantic boundary after `target_size` chars, and the chunk text
/// extends `overlap_size` UTF-16 units beyond it on each side (to the nearest
/// char boundary outwards, and cut off at the ends of the text).
pub fn chunk_text(text: &str, opts: &ChunkingOptions) -> (r: Vec<Chunk>)
    ensures
        chunk_views(r@) == chunk_text_spec(
            text@,
            opts.target_size as int,
            opts.overlap_size as int,
        ),
        tiles_from(text@, chunk_views(r@), 0),
        forall|k: int|
            0 <= k < r.len() ==> #[trigger] overlap_as_asked(
                text@,
                r@[k]@,
                opts.overlap_size as int,
            ) && primary_end_ok(text@, r@[k]@),
{
    let r = split_into_chunks(text, opts);
    proof {
        lemma_chunks_cover_document(text@, opts.target_size, opts.overlap_size);
        lemma_chunk_ends_at_boundaries(text@, opts.target_size, opts.overlap_size);
        let cs = chunk_text_spec(text@, opts.target_size as int, opts.overlap_size as int);
        assert forall|k: int| 0 <= k < r.len() implies #[trigger] overlap_as_asked(
            text@,
            r@[k]@,
            opts.overlap_size as int,
        ) && primary_end_ok(text@, r@[k]@) by {
            assert(chunk_views(r@)[k] == r@[k]@);
            assert(overlap_as_asked(text@, cs[k], opts.overlap_size as int));
            assert(primary_end_ok(text@, cs[k]));
        }
    }
    r
}

/// The chunks of `text`, as `chunk_text_spec` gives them.
fn split_into_chunks(text: &str, opts: &ChunkingOptions) -> (r: Vec<Chunk>)
    ensures
        chunk_views(r@) == chunk_text_spec(
            text@,
            opts.target_size as int,
            opts.overlap_size as int,
        ),
{
    let ix = TextIndex::new(text);
    let n = ix.chars.len();
    // `n <= target + 2 * overlap`, without overflow: when the bound does not
    // fit in a `usize`, every text is below it.
    let small = opts.overlap_size > usize::MAX / 2 || opts.target_size > usize::MAX
        - opts.overlap_size * 2 || n <= opts.target_size + opts.overlap_size * 2;
    if small {
        // Small enough to process as one chunk.
        return whole_text_chunk(text, &ix);
    }
    chunk_loop(text, &ix, opts.target_size, opts.overlap_size)
}

/// UTF-16 offset in `doc` at which a chunk starting at byte `start_byte` starts.
pub open spec fn chunk_js_start(doc: Seq<char>, start_byte: int) -> int {
    js_offset(doc, byte_char_index(doc, start_byte)) as int
}

/// `e` moved by `offset` UTF-16 units.
pub open spec fn shifted(e: Edit, offset: int) -> Edit {
    Edit {
        start_index: (e.start_index + offset) as usize,
        end_index: (e.end_index + offset) as usize,
        ..e
    }
}

/// Edit `e` lies within the primary range `lo..hi`.
pub open spec fn in_primary(e: Edit, lo: int, hi: int) -> bool {
    lo <= e.start_index && e.end_index <= hi
}

/// The edits of `edits` within `lo..hi`, moved by `offset`, in order.
pub open spec fn primary_edits(edits: Seq<Edit>, lo: int, hi: int, offset: int) -> Seq<Edit>
    decreases edits.len(),
{
    if edits.len() == 0 {
        Seq::empty()
    } else {
        let rest = primary_edits(edits.drop_last(), lo, hi, offset);
        if in_primary(edits.last(), lo, hi) {
            rest.push(shifted(edits.last(), offset))
        } else {
            rest
        }
    }
}

/// The document-level edits of the first `k` (chunk, edits) pairs, in order.
pub open spec fn document_edits(
    doc: Seq<char>,
    chunks: Seq<Chunk>,
    chunk_edits: Seq<Vec<Edit>>,
    k: int,
) -> Seq<Edit>
    decreases k,
{
    if k <= 0 {
        Seq::empty()
    } else {
        let c = chunks[k - 1];
        document_edits(doc, chunks, chunk_edits, k - 1) + primary_edits(
            chunk_edits[k - 1]@,
            c.primary_range.start as int,
            c.primary_range.end as int,
            chunk_js_start(doc, c.doc_start_byte as int),
        )
    }
}

/// Number of (chunk, edits) pairs that are merged.
pub open spec fn pair_count(chunks: Seq<Chunk>, chunk_edits: Seq<Vec<Edit>>) -> int {
    if chunks.len() <= chunk_edits.len() {
        chunks.len() as int
    } else {
        chunk_edits.len() as int
    }
}

/// Edits are ordered by (start, end).
pub open spec fn key_less(a: Edit, b: Edit) -> bool {
    a.start_index < b.start_index || (a.start_index == b.start_index && a.end_index
        < b.end_index)
}

pub open spec fn same_key(a: Edit, b: Edit) -> bool {
    a.start_index == b.start_index && a.end_index == b.end_index
}

/// `all[m]` is the first edit of `all` with its (start, end).
pub open spec fn first_with_key(all: Seq<Edit>, m: int) -> bool {
    forall|m2: int| 0 <= m2 < m ==> !same_key(#[trigger] all[m2], all[m])
}

/// `r` holds, sorted by (start, end), the first edit of `all` for each
/// (start, end) that occurs in `all`: what a stable sort by that key followed
/// by removing consecutive duplicates keeps.
pub open spec fn sorted_first_occurrences(all: Seq<Edit>, r: Seq<Edit>) -> bool {
    &&& forall|i: int, j: int| 0 <= i < j < r.len() ==> key_less(#[trigger] r[i], #[trigger] r[j])
    &&& forall|i: int|
        #[trigger] is_index(r, i) ==> exists|m: int|
            0 <= m < all.len() && all[m] == r[i] && first_with_key(all, m)
    &&& forall|m: int|
        #[trigger] is_index(all, m) ==> exists|i: int| 0 <= i < r.len() && same_key(r[i], all[m])
}

/// `i` is a position of `s`.
pub open spec fn is_index(s: Seq<Edit>, i: int) -> bool {
    0 <= i < s.len()
}

/// The edits of one chunk, moved to document positions, keeping only those
/// inside the primary region.
fn shift_chunk_edits(edits: &Vec<Edit>, lo: usize, hi: usize, offset: usize, out: &mut Vec<Edit>)
    requires
        forall|q: int|
            0 <= q < edits.len() && in_primary(#[trigger] edits@[q], lo as int, hi as int) ==> {
                &&& edits@[q].start_index + offset <= usize::MAX
                &&& edits@[q].end_index + offset <= usize::MAX
            },
    ensures
        final(out)@ == old(out)@ + primary_edits(edits@, lo as int, hi as int, offset as int),
{
    let mut i: usize = 0;
    let ghost start = out@;
    proof {
        assert(edits@.take(0) =~= Seq::<Edit>::empty());
        assert(start + Seq::<Edit>::empty() =~= start);
    }
    while i < edits.len()
        invariant
            0 <= i <= edits.len(),
            forall|q: int|
                0 <= q < edits.len() && in_primary(#[trigger] edits@[q], lo as int, hi as int) ==> {
                    &&& edits@[q].start_index + offset <= usize::MAX
                    &&& edits@[q].end_index + offset <= usize::MAX
                },
            out@ == start + primary_edits(edits@.take(i as int), lo as int, hi as int, offset as int),
        decreases edits.len() - i,
    {
        let edit = &edits[i];
        proof {
            assert(edits@.take(i + 1).drop_last() =~= edits@.take(i as int));
            assert(edits@.take(i + 1).last() == *edit);
        }
        // Discard edits outside the primary (non-overlap) zone.
        if !(edit.start_index < lo || edit.end_index > hi) {
            let moved = Edit {
                start_index: edit.start_index + offset,
                end_index: edit.end_index + offset,
                replacement: edit.replacement.clone(),
                category: edit.category,
                explanation: match &edit.explanation {
                    Some(e) => Some(e.clone()),
                    None => None,
                },
            };
            out.push(moved);
            proof {
                assert(moved == shifted(*edit, offset as int));
                assert(out@ =~= start + primary_edits(edits@.take(i + 1), lo as int, hi as int, offset as int));
            }
        }
        i = i + 1;
    }
    proof {
        assert(edits@.take(edits.len() as int) =~= edits@);
    }
}

/// Inserts `e` into `r` (sorted by key, holding first occurrences) unless an
/// edit with its key is already there.
fn insert_unless_present(r: &mut Vec<Edit>, e: &Edit)
    requires
        forall|i: int, j: int| 0 <= i < j < old(r).len() ==> key_less(#[trigger] old(r)@[i], #[trigger] old(r)@[j]),
    ensures
        forall|i: int, j: int| 0 <= i < j < final(r).len() ==> key_less(#[trigger] final(r)@[i], #[trigger] final(r)@[j]),
        (exists|i: int| 0 <= i < old(r).len() && same_key(#[trigger] old(r)@[i], *e)) ==> final(r)@ == old(r)@,
        !(exists|i: int| 0 <= i < old(r).len() && same_key(#[trigger] old(r)@[i], *e)) ==> exists|p: int|
            0 <= p <= old(r).len() && final(r)@ == old(r)@.insert(p, *e),
{
    let mut p: usize = 0;
    while p < r.len() && (r[p].start_index < e.start_index || (r[p].start_index == e.start_index
        && r[p].end_index < e.end_index))
        invariant
            0 <= p <= r.len(),
            r@ == old(r)@,
            forall|i: int, j: int| 0 <= i < j < r.len() ==> key_less(#[trigger] r@[i], #[trigger] r@[j]),
            forall|i: int| 0 <= i < p ==> key_less(#[trigger] r@[i], *e),
        decreases r.len() - p,
    {
        p = p + 1;
    }
    if p < r.len() && r[p].start_index == e.start_index && r[p].end_index == e.end_index {
        return;
    }
    proof {
        assert forall|i: int| 0 <= i < r.len() implies !same_key(#[trigger] r@[i], *e) by {
            if i >= p && i > p {
                assert(key_less(r@[p as int], r@[i]));
            }
        }
    }
    let ghost before = r@;
    r.insert(p, e.clone());
    proof {
        assert forall|i: int, j: int| 0 <= i < j < r.len() implies key_less(#[trigger] r@[i], #[trigger] r@[j]) by {
            if j == p {
                assert(key_less(before[i], *e));
            } else if i == p {
                assert(key_less(*e, before[j - 1]) || same_key(*e, before[j - 1])) by {
                    if j - 1 > p {
                        assert(key_less(before[p as int], before[j - 1]));
                    }
                }
            } else if i > p {
                assert(key_less(before[i - 1], before[j - 1]));
            } else if j > p {
                assert(key_less(before[i], before[j - 1]));
            }
        }
    }
}

/// Taking `all[i]` when its key is already present leaves `r` as it is.
proof fn lemma_first_occurrences_present(all: Seq<Edit>, i: int, r: Seq<Edit>, x0: int)
    requires
        0 <= i < all.len(),
        sorted_first_occurrences(all.take(i), r),
        0 <= x0 < r.len(),
        same_key(r[x0], all[i]),
    ensures
        sorted_first_occurrences(all.take(i + 1), r),
{
    let a = all.take(i);
    let a2 = all.take(i + 1);
    assert forall|x: int| #[trigger] is_index(r, x) implies exists|m: int|
        0 <= m < a2.len() && a2[m] == r[x] && first_with_key(a2, m) by {
        assert(is_index(r, x));
        let m = choose|m: int| 0 <= m < a.len() && a[m] == r[x] && first_with_key(a, m);
        assert(a2[m] == r[x]);
        assert forall|m2: int| 0 <= m2 < m implies !same_key(#[trigger] a2[m2], a2[m]) by {
            assert(a2[m2] == a[m2]);
        }
    }
    assert forall|m: int| #[trigger] is_index(a2, m) implies exists|x: int|
        0 <= x < r.len() && same_key(r[x], a2[m]) by {
        if m < i {
            assert(is_index(a, m));
            let x = choose|x: int| 0 <= x < r.len() && same_key(r[x], a[m]);
            assert(a2[m] == a[m]);
            assert(same_key(r[x], a2[m]));
        } else {
            assert(a2[m] == all[i]);
            assert(same_key(r[x0], a2[m]));
        }
    }
}

/// Taking `all[i]` when its key is absent inserts it.
proof fn lemma_first_occurrences_absent(all: Seq<Edit>, i: int, r: Seq<Edit>, r2: Seq<Edit>, p: int)
    requires
        0 <= i < all.len(),
        sorted_first_occurrences(all.take(i), r),
        forall|x: int| 0 <= x < r.len() ==> !same_key(#[trigger] r[x], all[i]),
        forall|x: int, y: int| 0 <= x < y < r2.len() ==> key_less(#[trigger] r2[x], #[trigger] r2[y]),
        0 <= p <= r.len(),
        r2 == r.insert(p, all[i]),
    ensures
        sorted_first_occurrences(all.take(i + 1), r2),
{
    let a = all.take(i);
    let a2 = all.take(i + 1);
    assert(a2[i] == all[i]);
    assert(first_with_key(a2, i)) by {
        assert forall|m2: int| 0 <= m2 < i implies !same_key(#[trigger] a2[m2], a2[i]) by {
            assert(is_index(a, m2));
            let x = choose|x: int| 0 <= x < r.len() && same_key(r[x], a[m2]);
            assert(a2[m2] == a[m2]);
            assert(!same_key(r[x], all[i]));
        }
    }
    assert forall|x: int| #[trigger] is_index(r2, x) implies exists|m: int|
        0 <= m < a2.len() && a2[m] == r2[x] && first_with_key(a2, m) by {
        if x == p {
            assert(a2[i] == r2[x]);
        } else {
            let x1 = if x < p {
                x
            } else {
                x - 1
            };
            assert(r2[x] == r[x1]);
            assert(is_index(r, x1));
            let m = choose|m: int| 0 <= m < a.len() && a[m] == r[x1] && first_with_key(a, m);
            assert(a2[m] == r2[x]);
            assert forall|m2: int| 0 <= m2 < m implies !same_key(#[trigger] a2[m2], a2[m]) by {
                assert(a2[m2] == a[m2]);
            }
        }
    }
    assert forall|m: int| #[trigger] is_index(a2, m) implies exists|x: int|
        0 <= x < r2.len() && same_key(r2[x], a2[m]) by {
        if m < i {
            assert(is_index(a, m));
            let x = choose|x: int| 0 <= x < r.len() && same_key(r[x], a[m]);
            let x2 = if x < p {
                x
            } else {
                x + 1
            };
            assert(r2[x2] == r[x]);
            assert(a2[m] == a[m]);
            assert(same_key(r2[x2], a2[m]));
        } else {
            assert(r2[p] == all[i]);
            assert(same_key(r2[p], a2[m]));
        }
    }
}

/// One more edit, `all[i]`, taken into the sorted first occurrences.
proof fn lemma_first_occurrences_step(all: Seq<Edit>, i: int, r: Seq<Edit>, r2: Seq<Edit>)
    requires
        0 <= i < all.len(),
        sorted_first_occurrences(all.take(i), r),
        forall|x: int, y: int| 0 <= x < y < r2.len() ==> key_less(#[trigger] r2[x], #[trigger] r2[y]),
        (exists|x: int| 0 <= x < r.len() && same_key(#[trigger] r[x], all[i])) ==> r2 == r,
        !(exists|x: int| 0 <= x < r.len() && same_key(#[trigger] r[x], all[i])) ==> exists|p: int|
            0 <= p <= r.len() && r2 == r.insert(p, all[i]),
    ensures
        sorted_first_occurrences(all.take(i + 1), r2),
{
    if exists|x: int| 0 <= x < r.len() && same_key(#[trigger] r[x], all[i]) {
        let x0 = choose|x: int| 0 <= x < r.len() && same_key(#[trigger] r[x], all[i]);
        lemma_first_occurrences_present(all, i, r, x0);
    } else {
        let p = choose|p: int| 0 <= p <= r.len() && r2 == r.insert(p, all[i]);
        lemma_first_occurrences_absent(all, i, r, r2, p);
    }
}

/// The conditions under which merging the chunks' edits can run: each
/// chunk's start is a char boundary of the text, and moving its primary edits
/// to document positions does not overflow.
pub open spec fn merge_allowed(text: Seq<char>, chunks: Seq<Chunk>, chunk_edits: Seq<Vec<Edit>>) -> bool {
    &&& forall|k: int|
        0 <= k < pair_count(chunks, chunk_edits) ==> is_byte_boundary(
            text,
            #[trigger] chunks[k].doc_start_byte as int,
        )
    &&& forall|k: int, q: int|
        0 <= k < pair_count(chunks, chunk_edits) && 0 <= q < chunk_edits[k].len() && in_primary(
            #[trigger] chunk_edits[k]@[q],
            chunks[k].primary_range.start as int,
            chunks[k].primary_range.end as int,
        ) ==> {
            &&& chunk_edits[k]@[q].start_index + chunk_js_start(text, chunks[k].doc_start_byte as int)
                <= usize::MAX
            &&& chunk_edits[k]@[q].end_index + chunk_js_start(text, chunks[k].doc_start_byte as int)
                <= usize::MAX
        }
}

/// One chunk's part of `merge_allowed`.
pub open spec fn chunk_mergeable(text: Seq<char>, c: Chunk, edits: Seq<Edit>) -> bool {
    &&& is_byte_boundary(text, c.doc_start_byte as int)
    &&& forall|q: int|
        0 <= q < edits.len() && in_primary(
            #[trigger] edits[q],
            c.primary_range.start as int,
            c.primary_range.end as int,
        ) ==> {
            &&& edits[q].start_index + chunk_js_start(text, c.doc_start_byte as int) <= usize::MAX
            &&& edits[q].end_index + chunk_js_start(text, c.doc_start_byte as int) <= usize::MAX
        }
}

proof fn lemma_merge_allowed_per_chunk(text: Seq<char>, chunks: Seq<Chunk>, chunk_edits: Seq<Vec<Edit>>)
    requires
        forall|k: int|
            0 <= k < pair_count(chunks, chunk_edits) ==> #[trigger] chunk_mergeable(
                text,
                chunks[k],
                chunk_edits[k]@,
            ),
    ensures
        merge_allowed(text, chunks, chunk_edits),
{
    assert forall|k: int| 0 <= k < pair_count(chunks, chunk_edits) implies is_byte_boundary(
        text,
        #[trigger] chunks[k].doc_start_byte as int,
    ) by {
        assert(chunk_mergeable(text, chunks[k], chunk_edits[k]@));
    }
    assert forall|k: int, q: int|
        0 <= k < pair_count(chunks, chunk_edits) && 0 <= q < chunk_edits[k].len() && in_primary(
            #[trigger] chunk_edits[k]@[q],
            chunks[k].primary_range.start as int,
            chunks[k].primary_range.end as int,
        ) implies {
            &&& chunk_edits[k]@[q].start_index + chunk_js_start(text, chunks[k].doc_start_byte as int)
                <= usize::MAX
            &&& chunk_edits[k]@[q].end_index + chunk_js_start(text, chunks[k].doc_start_byte as int)
                <= usize::MAX
        } by {
        assert(chunk_mergeable(text, chunks[k], chunk_edits[k]@));
    }
}

proof fn lemma_merge_not_allowed(text: Seq<char>, chunks: Seq<Chunk>, chunk_edits: Seq<Vec<Edit>>, k: int)
    requires
        0 <= k < pair_count(chunks, chunk_edits),
        !chunk_mergeable(text, chunks[k], chunk_edits[k]@),
    ensures
        !merge_allowed(text, chunks, chunk_edits),
{
    if is_byte_boundary(text, chunks[k].doc_start_byte as int) {
        let q = choose|q: int|
            0 <= q < chunk_edits[k]@.len() && in_primary(
                #[trigger] chunk_edits[k]@[q],
                chunks[k].primary_range.start as int,
                chunks[k].primary_range.end as int,
            ) && !({
                &&& chunk_edits[k]@[q].start_index + chunk_js_start(text, chunks[k].doc_start_byte as int)
                    <= usize::MAX
                &&& chunk_edits[k]@[q].end_index + chunk_js_start(text, chunks[k].doc_start_byte as int)
                    <= usize::MAX
            });
        assert(in_primary(chunk_edits[k]@[q], chunks[k].primary_range.start as int, chunks[k].primary_range.end as int));
    }
}

/// Whether one chunk's edits can be merged (`chunk_mergeable`).
fn chunk_can_merge(ix: &TextIndex, c: &Chunk, edits: &Vec<Edit>) -> (r: bool)
    requires
        ix.wf(),
    ensures
        r == chunk_mergeable(ix.chars@, *c, edits@),
{
    let ghost s = ix.chars@;
    let b = c.doc_start_byte;
    if !ix.is_boundary(b) {
        return false;
    }
    let k = ix.floor_char(b);
    proof {
        lemma_floor_char_of_boundary(s, b as int);
        lemma_byte_char_index_unique(s, b as int, k as int);
    }
    let off = ix.js_starts[k];
    let lo = c.primary_range.start;
    let hi = c.primary_range.end;
    let mut q: usize = 0;
    while q < edits.len()
        invariant
            0 <= q <= edits.len(),
            s == ix.chars@,
            off == chunk_js_start(s, b as int),
            is_byte_boundary(s, b as int),
            b == c.doc_start_byte,
            lo == c.primary_range.start,
            hi == c.primary_range.end,
            forall|p: int|
                0 <= p < q && in_primary(#[trigger] edits@[p], lo as int, hi as int) ==> {
                    &&& edits@[p].start_index + off <= usize::MAX
                    &&& edits@[p].end_index + off <= usize::MAX
                },
        decreases edits.len() - q,
    {
        let e = &edits[q];
        if lo <= e.start_index && e.end_index <= hi {
            if e.start_index > usize::MAX - off || e.end_index > usize::MAX - off {
                proof {
                    assert(edits@[q as int] == *e);
                    assert(in_primary(edits@[q as int], lo as int, hi as int));
                }
                return false;
            }
        }
        q = q + 1;
    }
    true
}

/// Whether the chunks' edits can be merged (`merge_allowed`).
pub fn can_merge(full_text: &str, chunks: &[Chunk], chunk_edits: &Vec<Vec<Edit>>) -> (r: bool)
    ensures
        r == merge_allowed(full_text@, chunks@, chunk_edits@),
{
    let ix = TextIndex::new(full_text);
    let count = if chunks.len() <= chunk_edits.len() {
        chunks.len()
    } else {
        chunk_edits.len()
    };
    let mut k: usize = 0;
    while k < count
        invariant
            ix.wf(),
            ix.chars@ == full_text@,
            count == pair_count(chunks@, chunk_edits@),
            count <= chunks.len(),
            count <= chunk_edits.len(),
            0 <= k <= count,
            forall|m: int|
                0 <= m < k ==> #[trigger] chunk_mergeable(full_text@, chunks@[m], chunk_edits@[m]@),
        decreases count - k,
    {
        if !chunk_can_merge(&ix, &chunks[k], &chunk_edits[k]) {
            proof {
                lemma_merge_not_allowed(full_text@, chunks@, chunk_edits@, k as int);
            }
            return false;
        }
        k = k + 1;
    }
    proof {
        lemma_merge_allowed_per_chunk(full_text@, chunks@, chunk_edits@);
    }
    true
}

/// Adjusts edit positions from chunk-local UTF-16 indices to document-level
/// indices, dropping edits outside each chunk's primary region, then sorts the
/// result by (start, end) and keeps the first edit of each (start, end).
#[verifier::rlimit(40)]
pub fn merge_chunk_edits(chunks: &[Chunk], chunk_edits: Vec<Vec<Edit>>, full_text: &str) -> (r: Vec<Edit>)
    requires
        merge_allowed(full_text@, chunks@, chunk_edits@),
    ensures
        sorted_first_occurrences(
            document_edits(full_text@, chunks@, chunk_edits@, pair_count(chunks@, chunk_edits@)),
            r@,
        ),
        forall|i: int|
            0 <= i < r.len() ==> #[trigger] within_some_primary(
                full_text@,
                chunks@,
                pair_count(chunks@, chunk_edits@),
                r@[i],
            ),
{
    let ix = TextIndex::new(full_text);
    let ghost doc = full_text@;
    let npairs = if chunks.len() <= chunk_edits.len() {
        chunks.len()
    } else {
        chunk_edits.len()
    };
    let mut all: Vec<Edit> = Vec::new();
    let mut k: usize = 0;
    while k < npairs
        invariant
            ix.wf(),
            ix.chars@ == doc,
            npairs == pair_count(chunks@, chunk_edits@),
            npairs <= chunks.len(),
            npairs <= chunk_edits.len(),
            0 <= k <= npairs,
            forall|k2: int|
                0 <= k2 < pair_count(chunks@, chunk_edits@) ==> is_byte_boundary(
                    doc,
                    #[trigger] chunks@[k2].doc_start_byte as int,
                ),
            forall|k2: int, q: int|
                0 <= k2 < pair_count(chunks@, chunk_edits@) && 0 <= q < chunk_edits@[k2].len()
                    && in_primary(
                    #[trigger] chunk_edits@[k2]@[q],
                    chunks@[k2].primary_range.start as int,
                    chunks@[k2].primary_range.end as int,
                ) ==> {
                    &&& chunk_edits@[k2]@[q].start_index + chunk_js_start(
                        doc,
                        chunks@[k2].doc_start_byte as int,
                    ) <= usize::MAX
                    &&& chunk_edits@[k2]@[q].end_index + chunk_js_start(
                        doc,
                        chunks@[k2].doc_start_byte as int,
                    ) <= usize::MAX
                },
            all@ == document_edits(doc, chunks@, chunk_edits@, k as int),
        decreases npairs - k,
    {
        let chunk = &chunks[k];
        // UTF-16 offset of this chunk's start within the full document.
        let b = ix.floor_char(chunk.doc_start_byte);
        proof {
            lemma_floor_char_of_boundary(doc, chunk.doc_start_byte as int);
            lemma_byte_char_index_unique(doc, chunk.doc_start_byte as int, b as int);
        }
        let chunk_doc_utf16 = ix.js_starts[b];
        shift_chunk_edits(
            &chunk_edits[k],
            chunk.primary_range.start,
            chunk.primary_range.end,
            chunk_doc_utf16,
            &mut all,
        );
        k = k + 1;
    }
    // Sort by (start, end), keeping the first edit of each (start, end).
    let mut r: Vec<Edit> = Vec::new();
    let mut i: usize = 0;
    proof {
        assert(all@.take(0) =~= Seq::<Edit>::empty());
        assert forall|m: int| #[trigger] is_index(all@.take(0), m) implies exists|x: int|
            0 <= x < r@.len() && same_key(r@[x], all@.take(0)[m]) by {}
        assert forall|x: int| #[trigger] is_index(r@, x) implies exists|m: int|
            0 <= m < all@.take(0).len() && all@.take(0)[m] == r@[x] && first_with_key(all@.take(0), m) by {}
    }
    while i < all.len()
        invariant
            0 <= i <= all.len(),
            sorted_first_occurrences(all@.take(i as int), r@),
        decreases all.len() - i,
    {
        let ghost before = r@;
        insert_unless_present(&mut r, &all[i]);
        proof {
            lemma_first_occurrences_step(all@, i as int, before, r@);
        }
        i = i + 1;
    }
    proof {
        assert(all@.take(all.len() as int) =~= all@);
        lemma_merged_edits_in_primary(full_text@, chunks@, chunk_edits@, r@);
    }
    r
}

/// UTF-16 position in `doc` at which the primary region of the chunk viewed
/// as `v` starts.
pub open spec fn doc_primary_start(doc: Seq<char>, v: (Seq<char>, int, int, int)) -> int {
    chunk_js_start(doc, v.1) + v.2
}

/// UTF-16 position in `doc` at which the primary region of the chunk viewed
/// as `v` ends.
pub open spec fn doc_primary_end(doc: Seq<char>, v: (Seq<char>, int, int, int)) -> int {
    chunk_js_start(doc, v.1) + v.3
}

/// The chunk viewed as `v` is the part of `doc` that starts at its start byte,
/// and its primary region lies within it.
pub open spec fn chunk_in_doc(doc: Seq<char>, v: (Seq<char>, int, int, int)) -> bool {
    let a = byte_char_index(doc, v.1);
    &&& is_byte_boundary(doc, v.1)
    &&& a + v.0.len() <= doc.len()
    &&& v.0 == doc.subrange(a, a + v.0.len())
    &&& 0 <= v.2 <= v.3 <= utf16_length(v.0)
}

/// Each chunk of `vs` is a part of `doc`, and their primary regions follow
/// one another without gap or overlap from UTF-16 position `from` to the end
/// of `doc`.
pub open spec fn tiles_from(doc: Seq<char>, vs: Seq<(Seq<char>, int, int, int)>, from: int) -> bool {
    &&& vs.len() > 0
    &&& doc_primary_start(doc, vs[0]) == from
    &&& doc_primary_end(doc, vs.last()) == utf16_length(doc)
    &&& forall|i: int|
        0 <= i < vs.len() - 1 ==> #[trigger] doc_primary_end(doc, vs[i]) == doc_primary_start(
            doc,
            vs[i + 1],
        )
    &&& forall|i: int| 0 <= i < vs.len() ==> #[trigger] chunk_in_doc(doc, vs[i])
}

/// The chunk viewed as `v` extends `overlap` UTF-16 units before and after
/// its primary region, cut off at the ends of `doc`; where that position
/// falls inside a surrogate pair, the chunk takes the whole pair (one unit
/// more).
pub open spec fn overlap_as_asked(doc: Seq<char>, v: (Seq<char>, int, int, int), overlap: int) -> bool {
    let p = doc_primary_start(doc, v);
    let q = doc_primary_end(doc, v);
    let before = min_int(overlap, p);
    let after = min_int(overlap, utf16_length(doc) - q);
    let tail = utf16_length(v.0) - v.3;
    &&& before <= v.2 <= before + 1
    &&& is_js_boundary(doc, p - before) ==> v.2 == before
    &&& after <= tail <= after + 1
    &&& is_js_boundary(doc, q + after) ==> tail == after
}

/// The chunk whose primary region runs from char `i` to char `j` is a part of
/// the document, its primary region is that range and non-empty, and its
/// overlap is as asked.
proof fn lemma_chunk_view(s: Seq<char>, i: int, j: int, overlap: int)
    requires
        0 <= i < j <= s.len(),
        0 <= overlap,
    ensures
        chunk_in_doc(s, chunk_view(s, i, j, overlap)),
        doc_primary_start(s, chunk_view(s, i, j, overlap)) == js_offset(s, i),
        doc_primary_end(s, chunk_view(s, i, j, overlap)) == js_offset(s, j),
        chunk_view(s, i, j, overlap).2 < chunk_view(s, i, j, overlap).3,
        overlap_as_asked(s, chunk_view(s, i, j, overlap), overlap),
{
    reveal(chunk_view);
    let p = js_offset(s, i) as int;
    let q = js_offset(s, j) as int;
    let a = retreat_char(s, i, back_by(p, overlap));
    let b = advance_char(s, j, on_by(s, q, overlap));
    lemma_retreat_char(s, i, back_by(p, overlap));
    lemma_advance_char(s, j, on_by(s, q, overlap));
    lemma_offset_monotonic(s, a, i);
    lemma_offset_monotonic(s, i, j);
    lemma_offset_monotonic(s, j, b);
    lemma_byte_char_index_unique(s, byte_offset(s, a) as int, a);
    let t = s.subrange(a, b);
    assert(t =~= s.subrange(a, a + t.len()));
    lemma_subtext_offsets(s, a, b, b - a);
    lemma_offset_full(t);
    let v = chunk_view(s, i, j, overlap);
    assert(utf16_length(v.0) - v.3 == js_offset(s, b) - q);
    lemma_overlap_before(s, i, overlap);
    lemma_overlap_after(s, j, overlap);
}

/// The chunk whose primary region starts at byte `pos` is a part of the
/// document, and its primary region covers the chars from `pos` to the next
/// chunk position.
proof fn lemma_chunk_at_in_doc(s: Seq<char>, target: int, overlap: int, pos: int)
    requires
        0 <= target,
        0 <= overlap,
        0 <= pos < utf8_length(s),
        is_byte_boundary(s, pos),
    ensures
        chunk_in_doc(s, chunk_at(s, target, overlap, pos)),
        doc_primary_start(s, chunk_at(s, target, overlap, pos)) == js_offset(s, floor_char(s, pos)),
        doc_primary_end(s, chunk_at(s, target, overlap, pos)) == js_offset(
            s,
            floor_char(s, next_chunk_pos(s, target, pos)),
        ),
{
    lemma_chunk_at_facts(s, target, overlap, pos);
}

/// The chunk whose primary region starts at byte `pos` has a non-empty
/// primary region and the overlap asked for.
proof fn lemma_chunk_at_overlap(s: Seq<char>, target: int, overlap: int, pos: int)
    requires
        0 <= target,
        0 <= overlap,
        0 <= pos < utf8_length(s),
        is_byte_boundary(s, pos),
    ensures
        chunk_at(s, target, overlap, pos).2 < chunk_at(s, target, overlap, pos).3,
        overlap_as_asked(s, chunk_at(s, target, overlap, pos), overlap),
{
    lemma_chunk_at_facts(s, target, overlap, pos);
}

proof fn lemma_chunk_at_facts(s: Seq<char>, target: int, overlap: int, pos: int)
    requires
        0 <= target,
        0 <= overlap,
        0 <= pos < utf8_length(s),
        is_byte_boundary(s, pos),
    ensures
        chunk_in_doc(s, chunk_at(s, target, overlap, pos)),
        doc_primary_start(s, chunk_at(s, target, overlap, pos)) == js_offset(s, floor_char(s, pos)),
        doc_primary_end(s, chunk_at(s, target, overlap, pos)) == js_offset(
            s,
            floor_char(s, next_chunk_pos(s, target, pos)),
        ),
        chunk_at(s, target, overlap, pos).2 < chunk_at(s, target, overlap, pos).3,
        overlap_as_asked(s, chunk_at(s, target, overlap, pos), overlap),
{
    reveal(chunk_at);
    lemma_chunk_layout(s, target, overlap, pos);
    lemma_chunk_view(
        s,
        floor_char(s, pos),
        floor_char(s, next_chunk_pos(s, target, pos)),
        overlap,
    );
}

/// Retreating `overlap` UTF-16 units from char `i` to a char start covers at
/// least `overlap` units (or all of them before it), and one more only where
/// that position splits a surrogate pair.
proof fn lemma_overlap_before(s: Seq<char>, i: int, overlap: int)
    requires
        0 <= i <= s.len(),
        0 <= overlap,
    ensures
        ({
            let p = js_offset(s, i) as int;
            let a = retreat_char(s, i, back_by(p, overlap));
            let before = min_int(overlap, p);
            &&& before <= p - js_offset(s, a) <= before + 1
            &&& is_js_boundary(s, p - before) ==> p - js_offset(s, a) == before
        }),
{
    let p = js_offset(s, i) as int;
    let lo = back_by(p, overlap);
    let a = retreat_char(s, i, lo);
    lemma_retreat_char(s, i, lo);
    if a < i {
        lemma_offset_step(s, a);
        assert(utf16_width(s[a]) <= 2);
    }
    if is_js_boundary(s, lo) {
        let k = choose|k: int| 0 <= k <= s.len() && #[trigger] js_offset(s, k) == lo;
        if k > a && a < i {
            lemma_offset_monotonic(s, a + 1, k);
        }
        if k <= a {
            lemma_offset_monotonic(s, k, a);
        }
        if a == i && k > i {
            lemma_offset_monotonic(s, i, k);
        }
    }
}

/// Advancing `overlap` UTF-16 units from char `j` to a char start covers at
/// least `overlap` units (or all of them after it), and one more only where
/// that position splits a surrogate pair.
proof fn lemma_overlap_after(s: Seq<char>, j: int, overlap: int)
    requires
        0 <= j <= s.len(),
        0 <= overlap,
    ensures
        ({
            let q = js_offset(s, j) as int;
            let b = advance_char(s, j, on_by(s, q, overlap));
            let after = min_int(overlap, utf16_length(s) - q);
            &&& after <= js_offset(s, b) - q <= after + 1
            &&& is_js_boundary(s, q + after) ==> js_offset(s, b) - q == after
        }),
{
    let q = js_offset(s, j) as int;
    let hi = on_by(s, q, overlap);
    let b = advance_char(s, j, hi);
    lemma_advance_char(s, j, hi);
    lemma_offset_full(s);
    lemma_offset_bounds(s, j);
    if b < s.len() {
        lemma_offset_monotonic(s, b, s.len() as int);
    }
    if b > j {
        lemma_offset_step(s, b - 1);
        assert(utf16_width(s[b - 1]) <= 2);
        lemma_offset_monotonic(s, j, b - 1);
    }
    if is_js_boundary(s, hi) {
        let k = choose|k: int| 0 <= k <= s.len() && #[trigger] js_offset(s, k) == hi;
        if k < b && b > j {
            lemma_offset_monotonic(s, k, b - 1);
        }
        if k >= b {
            lemma_offset_monotonic(s, b, k);
        }
        if b == j && k < b {
            lemma_offset_monotonic(s, k, b);
        }
    }
}

/// The chunks from byte `pos` on tile the document from the UTF-16 position
/// of `pos` to its end, each with a non-empty primary region and the overlap
/// asked for.
proof fn lemma_chunks_from_tile(s: Seq<char>, target: int, overlap: int, pos: int)
    requires
        0 <= target,
        0 <= overlap,
        0 <= pos < utf8_length(s),
        is_byte_boundary(s, pos),
    ensures
        tiles_from(s, chunks_from(s, target, overlap, pos), js_offset(s, floor_char(s, pos)) as int),
    decreases utf8_length(s) - pos,
{
    lemma_chunk_step(s, target, pos);
    lemma_chunks_from_unfold(s, target, overlap, pos);
    lemma_chunk_at_in_doc(s, target, overlap, pos);
    let pe = next_chunk_pos(s, target, pos);
    let c0 = chunk_at(s, target, overlap, pos);
    if pe >= utf8_length(s) {
        lemma_offset_full(s);
        lemma_floor_char_of_offset(s, s.len() as int);
        assert(pe == utf8_length(s));
        assert(floor_char(s, pe) == s.len());
        lemma_tile_one(s, c0);
        assert(chunks_from(s, target, overlap, pos) == seq![c0]);
    } else {
        lemma_chunks_from_tile(s, target, overlap, pe);
        let rest = chunks_from(s, target, overlap, pe);
        lemma_tile_prepend(s, c0, rest);
        assert(chunks_from(s, target, overlap, pos) =~= seq![c0] + rest);
    }
}

/// A single chunk that is part of the document and whose primary region ends
/// at the document's end tiles the document from where that region starts.
proof fn lemma_tile_one(s: Seq<char>, c0: (Seq<char>, int, int, int))
    requires
        chunk_in_doc(s, c0),
        doc_primary_end(s, c0) == utf16_length(s),
    ensures
        tiles_from(s, seq![c0], doc_primary_start(s, c0)),
{
    let vs = seq![c0];
    assert(vs[0] == c0);
    assert(vs.last() == c0);
}

/// A chunk that is part of the document, put before chunks that tile the
/// document from where its primary region ends, tiles it from where that
/// region starts.
proof fn lemma_tile_prepend(
    s: Seq<char>,
    c0: (Seq<char>, int, int, int),
    rest: Seq<(Seq<char>, int, int, int)>,
)
    requires
        chunk_in_doc(s, c0),
        tiles_from(s, rest, doc_primary_end(s, c0)),
    ensures
        tiles_from(s, seq![c0] + rest, doc_primary_start(s, c0)),
{
    let vs = seq![c0] + rest;
    assert(vs[0] == c0);
    assert(vs.last() == rest.last());
    assert forall|i: int| 0 <= i < vs.len() - 1 implies #[trigger] doc_primary_end(s, vs[i])
        == doc_primary_start(s, vs[i + 1]) by {
        assert(vs[i + 1] == rest[i]);
        if i > 0 {
            assert(vs[i] == rest[i - 1]);
        }
    }
    assert forall|i: int| 0 <= i < vs.len() implies #[trigger] chunk_in_doc(s, vs[i]) by {
        if i > 0 {
            assert(vs[i] == rest[i - 1]);
        }
    }
}

/// Every chunk from byte `pos` on has a non-empty primary region and the
/// overlap asked for.
proof fn lemma_chunks_from_overlap(s: Seq<char>, target: int, overlap: int, pos: int)
    requires
        0 <= target,
        0 <= overlap,
        0 <= pos < utf8_length(s),
        is_byte_boundary(s, pos),
    ensures
        forall|k: int|
            0 <= k < chunks_from(s, target, overlap, pos).len() ==> #[trigger] overlap_as_asked(
                s,
                chunks_from(s, target, overlap, pos)[k],
                overlap,
            ) && chunks_from(s, target, overlap, pos)[k].2 < chunks_from(
                s,
                target,
                overlap,
                pos,
            )[k].3,
    decreases utf8_length(s) - pos,
{
    lemma_chunk_step(s, target, pos);
    lemma_chunks_from_unfold(s, target, overlap, pos);
    lemma_chunk_at_overlap(s, target, overlap, pos);
    let pe = next_chunk_pos(s, target, pos);
    let c0 = chunk_at(s, target, overlap, pos);
    let vs = chunks_from(s, target, overlap, pos);
    if pe >= utf8_length(s) {
        assert(vs =~= seq![c0]);
    } else {
        lemma_chunks_from_overlap(s, target, overlap, pe);
        let rest = chunks_from(s, target, overlap, pe);
        assert(vs =~= seq![c0] + rest);
        assert forall|i: int| 0 <= i < vs.len() implies #[trigger] overlap_as_asked(s, vs[i], overlap)
            && vs[i].2 < vs[i].3 by {
            if i > 0 {
                assert(vs[i] == rest[i - 1]);
            } else {
                assert(vs[0] == c0);
            }
        }
    }
}

/// The chunks of a text cover it: each chunk is the part of the document that
/// starts at its start byte, the first primary region starts at the
/// document's start, each one starts where the one before it ends, and the
/// last one ends at the document's end. Each chunk extends `overlap` UTF-16
/// units beyond its primary region on each side (cut off at the ends of the
/// text, and one unit more where that position splits a surrogate pair), and
/// each primary region is non-empty unless the text is.
pub proof fn lemma_chunks_cover_document(s: Seq<char>, target: usize, overlap: usize)
    ensures
        tiles_from(s, chunk_text_spec(s, target as int, overlap as int), 0),
        forall|k: int|
            0 <= k < chunk_text_spec(s, target as int, overlap as int).len()
                ==> #[trigger] overlap_as_asked(
                s,
                chunk_text_spec(s, target as int, overlap as int)[k],
                overlap as int,
            ) && (s.len() > 0 ==> chunk_text_spec(s, target as int, overlap as int)[k].2
                < chunk_text_spec(s, target as int, overlap as int)[k].3),
{
    lemma_offset_zero(s);
    lemma_byte_char_index_unique(s, 0, 0);
    lemma_offset_full(s);
    if s.len() <= target + 2 * overlap {
        assert(s =~= s.subrange(0, s.len() as int));
        let vs = chunk_text_spec(s, target as int, overlap as int);
        assert(vs[0] == (s, 0int, 0int, utf16_length(s) as int));
        if s.len() > 0 {
            lemma_offset_monotonic(s, 0, s.len() as int);
        }
        assert(overlap_as_asked(s, vs[0], overlap as int));
    } else {
        lemma_offset_bounds(s, s.len() as int);
        lemma_offset_monotonic(s, 0, s.len() as int);
        lemma_floor_char_of_offset(s, 0);
        lemma_chunks_from_tile(s, target as int, overlap as int, 0);
        lemma_chunks_from_overlap(s, target as int, overlap as int, 0);
    }
}

/// Edit `e`, in document positions, lies inside the primary region of chunk
/// `c` of `doc`.
pub open spec fn within_primary(doc: Seq<char>, c: Chunk, e: Edit) -> bool {
    let base = chunk_js_start(doc, c.doc_start_byte as int);
    &&& base + c.primary_range.start <= e.start_index
    &&& e.end_index <= base + c.primary_range.end
}

proof fn lemma_primary_edits_origin(edits: Seq<Edit>, lo: int, hi: int, offset: int)
    ensures
        forall|p: int|
            #![trigger primary_edits(edits, lo, hi, offset)[p]]
            0 <= p < primary_edits(edits, lo, hi, offset).len() ==> exists|q: int|
                0 <= q < edits.len() && in_primary(#[trigger] edits[q], lo, hi)
                    && primary_edits(edits, lo, hi, offset)[p] == shifted(edits[q], offset),
    decreases edits.len(),
{
    if edits.len() > 0 {
        let d = edits.drop_last();
        lemma_primary_edits_origin(d, lo, hi, offset);
        let r = primary_edits(edits, lo, hi, offset);
        let r0 = primary_edits(d, lo, hi, offset);
        assert forall|p: int| #![trigger r[p]] 0 <= p < r.len() implies exists|q: int|
            0 <= q < edits.len() && in_primary(#[trigger] edits[q], lo, hi) && r[p] == shifted(
                edits[q],
                offset,
            ) by {
            if p < r0.len() {
                assert(r[p] == r0[p]);
                let q = choose|q: int|
                    0 <= q < d.len() && in_primary(#[trigger] d[q], lo, hi) && r0[p] == shifted(
                        d[q],
                        offset,
                    );
                assert(edits[q] == d[q]);
            } else {
                assert(edits[edits.len() - 1] == edits.last());
            }
        }
    }
}

/// `e` lies inside the primary region of one of the first `n` chunks.
pub open spec fn within_some_primary(doc: Seq<char>, chunks: Seq<Chunk>, n: int, e: Edit) -> bool {
    exists|k: int| 0 <= k < n && #[trigger] within_primary(doc, chunks[k], e)
}

proof fn lemma_document_edits_origin(
    doc: Seq<char>,
    chunks: Seq<Chunk>,
    chunk_edits: Seq<Vec<Edit>>,
    n: int,
)
    requires
        0 <= n <= pair_count(chunks, chunk_edits),
        merge_allowed(doc, chunks, chunk_edits),
    ensures
        forall|m: int|
            0 <= m < document_edits(doc, chunks, chunk_edits, n).len() ==> #[trigger] within_some_primary(
                doc,
                chunks,
                n,
                document_edits(doc, chunks, chunk_edits, n)[m],
            ),
    decreases n,
{
    if n > 0 {
        lemma_document_edits_origin(doc, chunks, chunk_edits, n - 1);
        let c = chunks[n - 1];
        let lo = c.primary_range.start as int;
        let hi = c.primary_range.end as int;
        let off = chunk_js_start(doc, c.doc_start_byte as int);
        let es = chunk_edits[n - 1]@;
        lemma_primary_edits_origin(es, lo, hi, off);
        let prev = document_edits(doc, chunks, chunk_edits, n - 1);
        let all = document_edits(doc, chunks, chunk_edits, n);
        let pe = primary_edits(es, lo, hi, off);
        assert(all == prev + pe);
        assert forall|m: int| 0 <= m < all.len() implies #[trigger] within_some_primary(
            doc,
            chunks,
            n,
            all[m],
        ) by {
            if m < prev.len() {
                assert(all[m] == prev[m]);
                assert(within_some_primary(doc, chunks, n - 1, prev[m]));
                let k = choose|k: int| 0 <= k < n - 1 && #[trigger] within_primary(doc, chunks[k], prev[m]);
                assert(within_primary(doc, chunks[k], all[m]));
            } else {
                assert(all[m] == pe[m - prev.len()]);
                let q = choose|q: int|
                    0 <= q < es.len() && in_primary(#[trigger] es[q], lo, hi) && pe[m - prev.len()]
                        == shifted(es[q], off);
                assert(es[q] == chunk_edits[n - 1]@[q]);
                assert(es[q].start_index + off <= usize::MAX);
                assert(es[q].end_index + off <= usize::MAX);
                assert(within_primary(doc, chunks[n - 1], all[m]));
            }
        }
    }
}

/// Every merged edit lies, in document UTF-16 positions, inside the primary
/// region of a chunk that reported edits: edits in a chunk's overlap are
/// dropped, so the edits of different chunks never overlap.
pub proof fn lemma_merged_edits_in_primary(
    doc: Seq<char>,
    chunks: Seq<Chunk>,
    chunk_edits: Seq<Vec<Edit>>,
    r: Seq<Edit>,
)
    requires
        merge_allowed(doc, chunks, chunk_edits),
        sorted_first_occurrences(
            document_edits(doc, chunks, chunk_edits, pair_count(chunks, chunk_edits)),
            r,
        ),
    ensures
        forall|i: int|
            0 <= i < r.len() ==> #[trigger] within_some_primary(
                doc,
                chunks,
                pair_count(chunks, chunk_edits),
                r[i],
            ),
{
    let n = pair_count(chunks, chunk_edits);
    let all = document_edits(doc, chunks, chunk_edits, n);
    lemma_document_edits_origin(doc, chunks, chunk_edits, n);
    assert forall|i: int| 0 <= i < r.len() implies #[trigger] within_some_primary(doc, chunks, n, r[i]) by {
        assert(is_index(r, i));
        let m = choose|m: int| 0 <= m < all.len() && all[m] == r[i] && first_with_key(all, m);
        assert(within_some_primary(doc, chunks, n, all[m]));
    }
}

/// Char index `j` may end a primary region that starts at char `i`: it is the
/// end of the text, the end of a blank line ("\n\n"), just after a '.', '!'
/// or '?' that a space, a newline or the end of the text follows, or the end
/// of a lookahead window that ran out (the char at `j` would reach more than
/// 800 bytes past the region's start). A '.' followed by any other char (as in
/// "3.14") is none of these.
pub open spec fn region_end_ok(s: Seq<char>, i: int, j: int) -> bool {
    ||| j == s.len()
    ||| (2 <= j && s[j - 2] == '\n' && s[j - 1] == '\n')
    ||| (1 <= j && (s[j - 1] == '.' || s[j - 1] == '!' || s[j - 1] == '?') && (j == s.len()
        || s[j] == ' ' || s[j] == '\n'))
    ||| (j < s.len() && byte_offset(s, i) + 800 < byte_offset(s, j + 1))
}

/// The chunk viewed as `v` has a primary region, in chars `i..j` of `doc`,
/// whose end is one of the allowed ones.
pub open spec fn primary_end_ok(doc: Seq<char>, v: (Seq<char>, int, int, int)) -> bool {
    exists|i: int, j: int|
        0 <= i <= j <= doc.len() && js_offset(doc, i) == doc_primary_start(doc, v) && js_offset(
            doc,
            j,
        ) == doc_primary_end(doc, v) && #[trigger] region_end_ok(doc, i, j)
}

proof fn lemma_next_chunk_end_ok(s: Seq<char>, target: int, pos: int)
    requires
        0 <= target,
        0 <= pos < utf8_length(s),
        is_byte_boundary(s, pos),
    ensures
        region_end_ok(s, floor_char(s, pos), floor_char(s, next_chunk_pos(s, target, pos))),
{
    reveal(next_chunk_pos);
    reveal(find_semantic_boundary_spec);
    lemma_chunk_step(s, target, pos);
    lemma_offset_full(s);
    lemma_floor_char_of_boundary(s, pos);
    let i = floor_char(s, pos);
    let ce = advance_chars_spec(s, pos, target);
    lemma_advance_chars_range(s, pos, target);
    let pe = next_chunk_pos(s, target, pos);
    lemma_floor_char_of_offset(s, s.len() as int);
    if pe < utf8_length(s) {
        assert(ce < utf8_length(s));
        lemma_floor_char_of_boundary(s, ce);
        let q = floor_char(s, ce);
        let w = ce + min_int(utf8_length(s) - ce, 800);
        lemma_floor_char_exists(s, w);
        let jw = lookahead_char(s, ce);
        lemma_first_para_break(s, q, jw);
        lemma_first_sentence_end(s, q, jw);
        match first_para_break(s, q, jw) {
            Some(k) => {
                lemma_offset_step(s, k);
                lemma_offset_step(s, k + 1);
                assert(utf8_width('\n') == 1);
                assert(byte_offset(s, k + 2) == pe);
                lemma_floor_char_of_offset(s, k + 2);
            },
            None => match first_sentence_end(s, q, jw) {
                Some(k) => {
                    lemma_floor_char_of_offset(s, k + 1);
                },
                None => {
                    lemma_floor_char_of_offset(s, jw);
                    if utf8_length(s) - ce <= 800 {
                        assert(w == utf8_length(s));
                        assert(jw == s.len());
                    }
                },
            },
        }
    }
}

proof fn lemma_chunks_from_end_ok(s: Seq<char>, target: int, overlap: int, pos: int)
    requires
        0 <= target,
        0 <= overlap,
        0 <= pos < utf8_length(s),
        is_byte_boundary(s, pos),
    ensures
        forall|k: int|
            0 <= k < chunks_from(s, target, overlap, pos).len() ==> #[trigger] primary_end_ok(
                s,
                chunks_from(s, target, overlap, pos)[k],
            ),
    decreases utf8_length(s) - pos,
{
    lemma_chunk_step(s, target, pos);
    lemma_chunks_from_unfold(s, target, overlap, pos);
    lemma_chunk_at_in_doc(s, target, overlap, pos);
    lemma_chunk_layout(s, target, overlap, pos);
    lemma_next_chunk_end_ok(s, target, pos);
    let pe = next_chunk_pos(s, target, pos);
    let c0 = chunk_at(s, target, overlap, pos);
    let i = floor_char(s, pos);
    let j = floor_char(s, pe);
    assert(region_end_ok(s, i, j));
    assert(primary_end_ok(s, c0));
    let vs = chunks_from(s, target, overlap, pos);
    if pe >= utf8_length(s) {
        assert(vs =~= seq![c0]);
        assert(vs[0] == c0);
    } else {
        lemma_chunks_from_end_ok(s, target, overlap, pe);
        let rest = chunks_from(s, target, overlap, pe);
        assert(vs =~= seq![c0] + rest);
        assert forall|k: int| 0 <= k < vs.len() implies #[trigger] primary_end_ok(s, vs[k]) by {
            if k > 0 {
                assert(vs[k] == rest[k - 1]);
            } else {
                assert(vs[0] == c0);
            }
        }
    }
}

/// Every chunk's primary region ends at the end of the text, at the end of a
/// blank line, just after a '.', '!' or '?' followed by a space, a newline or
/// the end of the text, or at the end of a lookahead window that ran out; a
/// '.' inside a number or a name ("3.14", "example.com") never ends one.
pub proof fn lemma_chunk_ends_at_boundaries(s: Seq<char>, target: usize, overlap: usize)
    ensures
        forall|k: int|
            0 <= k < chunk_text_spec(s, target as int, overlap as int).len()
                ==> #[trigger] primary_end_ok(s, chunk_text_spec(s, target as int, overlap as int)[k]),
{
    lemma_offset_zero(s);
    lemma_offset_full(s);
    lemma_byte_char_index_unique(s, 0, 0);
    if s.len() <= target + 2 * overlap {
        let vs = chunk_text_spec(s, target as int, overlap as int);
        assert(vs[0] == (s, 0int, 0int, utf16_length(s) as int));
        assert(region_end_ok(s, 0, s.len() as int));
        assert(primary_end_ok(s, vs[0]));
    } else {
        lemma_offset_bounds(s, s.len() as int);
        lemma_offset_monotonic(s, 0, s.len() as int);
        lemma_floor_char_of_offset(s, 0);
        lemma_chunks_from_end_ok(s, target as int, overlap as int, 0);
    }
}

/// An edit that a chunk's text gets, moved by the chunk's UTF-16 start in the
/// document, covers the same text of the document: it is valid for the
/// document exactly when it is valid for the chunk.
pub proof fn lemma_chunk_edit_shift(doc: Seq<char>, v: (Seq<char>, int, int, int), e: Edit)
    requires
        chunk_in_doc(doc, v),
        e.end_index <= utf16_length(v.0),
        chunk_js_start(doc, v.1) + e.start_index <= usize::MAX,
        chunk_js_start(doc, v.1) + e.end_index <= usize::MAX,
    ensures
        edit_is_valid(e, v.0) <==> edit_is_valid(shifted(e, chunk_js_start(doc, v.1)), doc),
        e.start_index <= e.end_index && utf16_slice_spec(v.0, e.start_index, e.end_index) is Ok
            ==> utf16_slice_spec(
            v.0,
            e.start_index,
            e.end_index,
        ) == utf16_slice_spec(
            doc,
            shifted(e, chunk_js_start(doc, v.1)).start_index,
            shifted(e, chunk_js_start(doc, v.1)).end_index,
        ),
{
    let from = byte_char_index(doc, v.1);
    let to = from + v.0.len();
    let off = chunk_js_start(doc, v.1);
    assert(v.0 == doc.subrange(from, to));
    assert(off == js_offset(doc, from));
    lemma_subtext_offsets(doc, from, to, to - from);
    lemma_offset_full(v.0);
    lemma_offset_bounds(doc, to);
    lemma_offset_full(doc);
    lemma_offset_monotonic(doc, to, doc.len() as int);
    if e.start_index <= e.end_index {
        lemma_subtext_slice(doc, from, to, e.start_index, e.end_index);
        let t2 = shifted(e, off);
        assert(t2.start_index == (e.start_index + off) as usize);
        assert(t2.end_index == (e.end_index + off) as usize);
        assert(t2.replacement == e.replacement);
        assert(t2.end_index <= utf16_length(doc));
    }
}

} // verus!
