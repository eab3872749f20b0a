//! The mathematical model of text used throughout the crate.
//!
//! A text is a sequence of `char`s (`Seq<char>`, the view of `str` and
//! `String`). Byte offsets are UTF-8 offsets and "JS indices" are UTF-16 code
//! unit offsets, both measured from the start of the text.

use vstd::prelude::*;
use vstd::utf8::*;

verus! {

/// Number of bytes in the UTF-8 encoding of `c`.
pub open spec fn utf8_width(c: char) -> nat {
    if (c as u32) <= 0x7F {
        1
    } else if (c as u32) <= 0x7FF {
        2
    } else if (c as u32) <= 0xFFFF {
        3
    } else {
        4
    }
}

/// Number of UTF-16 code units in the encoding of `c` (2 for a surrogate pair).
pub open spec fn utf16_width(c: char) -> nat {
    if (c as u32) > 0xFFFF {
        2
    } else {
        1
    }
}

/// Length in bytes of the UTF-8 encoding of `s`.
pub open spec fn utf8_length(s: Seq<char>) -> nat
    decreases s.len(),
{
    if s.len() == 0 {
        0
    } else {
        utf8_length(s.drop_last()) + utf8_width(s.last())
    }
}

/// Length in UTF-16 code units of `s` (JavaScript's `string.length`).
pub open spec fn utf16_length(s: Seq<char>) -> nat
    decreases s.len(),
{
    if s.len() == 0 {
        0
    } else {
        utf16_length(s.drop_last()) + utf16_width(s.last())
    }
}

/// Byte offset at which the `i`-th char of `s` starts.
#[verifier::opaque]
pub open spec fn byte_offset(s: Seq<char>, i: int) -> nat {
    utf8_length(s.take(i))
}

/// UTF-16 offset at which the `i`-th char of `s` starts.
#[verifier::opaque]
pub open spec fn js_offset(s: Seq<char>, i: int) -> nat {
    utf16_length(s.take(i))
}

/// `j` is the UTF-16 offset at which some char of `s` starts (or the end of `s`).
pub open spec fn is_js_boundary(s: Seq<char>, j: int) -> bool {
    exists|k: int| 0 <= k <= s.len() && #[trigger] js_offset(s, k) == j
}

/// The char index whose UTF-16 offset is `j` (meaningful when `is_js_boundary(s, j)`).
pub open spec fn js_char_index(s: Seq<char>, j: int) -> int {
    choose|k: int| 0 <= k <= s.len() && #[trigger] js_offset(s, k) == j
}

/// `b` is the byte offset at which some char of `s` starts (or the end of `s`).
pub open spec fn is_byte_boundary(s: Seq<char>, b: int) -> bool {
    exists|k: int| 0 <= k <= s.len() && #[trigger] byte_offset(s, k) == b
}

/// The char index whose byte offset is `b` (meaningful when `is_byte_boundary(s, b)`).
pub open spec fn byte_char_index(s: Seq<char>, b: int) -> int {
    choose|k: int| 0 <= k <= s.len() && #[trigger] byte_offset(s, k) == b
}

/// `k` counts exactly the chars of `s` that start before byte `b`.
pub open spec fn counts_chars_before_byte(s: Seq<char>, b: int, k: int) -> bool {
    &&& 0 <= k <= s.len()
    &&& (k == s.len() || b <= byte_offset(s, k))
    &&& forall|m: int| 0 <= m < k ==> #[trigger] byte_offset(s, m) < b
}

/// Number of chars of `s` that start before byte `b`.
pub open spec fn chars_before_byte(s: Seq<char>, b: int) -> int {
    choose|k: int| counts_chars_before_byte(s, b, k)
}

pub proof fn lemma_js_char_index_unique(s: Seq<char>, j: int, k: int)
    requires
        0 <= k <= s.len(),
        js_offset(s, k) == j,
    ensures
        is_js_boundary(s, j),
        js_char_index(s, j) == k,
{
    assert(is_js_boundary(s, j));
    let k2 = js_char_index(s, j);
    if k2 < k {
        lemma_offset_monotonic(s, k2, k);
    } else if k < k2 {
        lemma_offset_monotonic(s, k, k2);
    }
}

pub proof fn lemma_byte_char_index_unique(s: Seq<char>, b: int, k: int)
    requires
        0 <= k <= s.len(),
        byte_offset(s, k) == b,
    ensures
        is_byte_boundary(s, b),
        byte_char_index(s, b) == k,
{
    assert(is_byte_boundary(s, b));
    let k2 = byte_char_index(s, b);
    if k2 < k {
        lemma_offset_monotonic(s, k2, k);
    } else if k < k2 {
        lemma_offset_monotonic(s, k, k2);
    }
}

pub proof fn lemma_chars_before_byte_unique(s: Seq<char>, b: int, k: int)
    requires
        counts_chars_before_byte(s, b, k),
    ensures
        chars_before_byte(s, b) == k,
{
    let k2 = chars_before_byte(s, b);
    assert(counts_chars_before_byte(s, b, k2));
    if k2 < k {
        assert(byte_offset(s, k2) < b);
    } else if k < k2 {
        assert(byte_offset(s, k) < b);
    }
}

/// Offsets of a char are bounded by the text's lengths.
pub proof fn lemma_offset_bounds(s: Seq<char>, i: int)
    requires
        0 <= i <= s.len(),
    ensures
        js_offset(s, i) <= byte_offset(s, i),
        byte_offset(s, i) <= utf8_length(s),
        js_offset(s, i) <= utf16_length(s),
        utf16_length(s) <= utf8_length(s),
{
    reveal(byte_offset);
    reveal(js_offset);
    lemma_utf16_le_utf8(s.take(i));
    lemma_utf16_le_utf8(s);
    lemma_offset_monotonic(s, i, s.len() as int);
    lemma_offset_full(s);
}

pub proof fn lemma_utf8_len_append(a: Seq<char>, b: Seq<char>)
    ensures
        utf8_length(a + b) == utf8_length(a) + utf8_length(b),
    decreases b.len(),
{
    if b.len() == 0 {
        assert(a + b =~= a);
    } else {
        assert((a + b).drop_last() =~= a + b.drop_last());
        lemma_utf8_len_append(a, b.drop_last());
    }
}

pub proof fn lemma_utf16_len_append(a: Seq<char>, b: Seq<char>)
    ensures
        utf16_length(a + b) == utf16_length(a) + utf16_length(b),
    decreases b.len(),
{
    if b.len() == 0 {
        assert(a + b =~= a);
    } else {
        assert((a + b).drop_last() =~= a + b.drop_last());
        lemma_utf16_len_append(a, b.drop_last());
    }
}

/// A text never has more UTF-16 code units than UTF-8 bytes.
pub proof fn lemma_utf16_le_utf8(s: Seq<char>)
    ensures
        utf16_length(s) <= utf8_length(s),
    decreases s.len(),
{
    if s.len() > 0 {
        lemma_utf16_le_utf8(s.drop_last());
    }
}

/// Stepping over the `i`-th char adds its widths to both offsets.
pub proof fn lemma_offset_step(s: Seq<char>, i: int)
    requires
        0 <= i < s.len(),
    ensures
        byte_offset(s, i + 1) == byte_offset(s, i) + utf8_width(s[i]),
        js_offset(s, i + 1) == js_offset(s, i) + utf16_width(s[i]),
{
    reveal(byte_offset);
    reveal(js_offset);
    assert(s.take(i + 1).drop_last() =~= s.take(i));
}

/// Offsets grow strictly with the char index.
pub proof fn lemma_offset_monotonic(s: Seq<char>, i: int, j: int)
    requires
        0 <= i <= j <= s.len(),
    ensures
        byte_offset(s, i) <= byte_offset(s, j),
        js_offset(s, i) <= js_offset(s, j),
        i < j ==> byte_offset(s, i) < byte_offset(s, j),
        i < j ==> js_offset(s, i) < js_offset(s, j),
    decreases j - i,
{
    if i < j {
        lemma_offset_step(s, j - 1);
        lemma_offset_monotonic(s, i, j - 1);
    }
}

pub proof fn lemma_offset_zero(s: Seq<char>)
    ensures
        byte_offset(s, 0) == 0,
        js_offset(s, 0) == 0,
{
    reveal(byte_offset);
    reveal(js_offset);
    assert(s.take(0) =~= Seq::<char>::empty());
}

pub proof fn lemma_offset_full(s: Seq<char>)
    ensures
        byte_offset(s, s.len() as int) == utf8_length(s),
        js_offset(s, s.len() as int) == utf16_length(s),
{
    reveal(byte_offset);
    reveal(js_offset);
    assert(s.take(s.len() as int) =~= s);
}

proof fn lemma_scalar_width(c: char)
    ensures
        encode_scalar(c as u32).len() == utf8_width(c),
{
    char_is_scalar(c);
}

/// The UTF-8 encoding of a concatenation is the concatenation of encodings.
pub proof fn lemma_encode_append(a: Seq<char>, b: Seq<char>)
    ensures
        encode_utf8(a + b) == encode_utf8(a) + encode_utf8(b),
    decreases a.len(),
{
    if a.len() == 0 {
        assert(a + b =~= b);
        assert(encode_utf8(a) + encode_utf8(b) =~= encode_utf8(b));
    } else {
        assert((a + b).drop_first() =~= a.drop_first() + b);
        lemma_encode_append(a.drop_first(), b);
        assert((a + b)[0] == a[0]);
        assert(encode_utf8(a + b) =~= encode_scalar(a[0] as u32) + (encode_utf8(a.drop_first())
            + encode_utf8(b)));
    }
}

/// `utf8_length` is the length of vstd's UTF-8 encoding, i.e. `str::len`.
pub proof fn lemma_encode_len(s: Seq<char>)
    ensures
        encode_utf8(s).len() == utf8_length(s),
    decreases s.len(),
{
    if s.len() > 0 {
        lemma_encode_len(s.drop_first());
        lemma_scalar_width(s[0]);
        assert(s =~= seq![s[0]] + s.drop_first());
        lemma_utf8_len_append(seq![s[0]], s.drop_first());
        let one = seq![s[0]];
        assert(one.drop_last() =~= Seq::<char>::empty());
        assert(utf8_length(one.drop_last()) == 0);
        assert(one.last() == s[0]);
        assert(utf8_length(one) == utf8_width(s[0]));
        assert(encode_utf8(s) == encode_scalar(s[0] as u32) + encode_utf8(s.drop_first()));
    }
}

/// Splitting the encoding at the offset of char `k` splits the text at `k`.
pub proof fn lemma_encode_split(s: Seq<char>, k: int)
    requires
        0 <= k <= s.len(),
    ensures
        encode_utf8(s).subrange(0, byte_offset(s, k) as int) == encode_utf8(s.take(k)),
        encode_utf8(s).subrange(byte_offset(s, k) as int, encode_utf8(s).len() as int)
            == encode_utf8(s.skip(k)),
{
    reveal(byte_offset);
    reveal(js_offset);
    assert(s =~= s.take(k) + s.skip(k));
    lemma_encode_append(s.take(k), s.skip(k));
    lemma_encode_len(s.take(k));
    let a = encode_utf8(s.take(k));
    let b = encode_utf8(s.skip(k));
    assert((a + b).subrange(0, a.len() as int) =~= a);
    assert((a + b).subrange(a.len() as int, (a + b).len() as int) =~= b);
}

/// The offset of every char (and of the end) is a char boundary of the encoding.
pub proof fn lemma_offset_is_char_boundary(s: Seq<char>, k: int)
    requires
        0 <= k <= s.len(),
    ensures
        is_char_boundary(encode_utf8(s), byte_offset(s, k) as int),
    decreases s.len(),
{
    reveal(byte_offset);
    reveal(js_offset);
    broadcast use encode_utf8_valid_utf8;

    if k == 0 {
        assert(s.take(0) =~= Seq::<char>::empty());
    } else {
        let bytes = encode_utf8(s);
        let rest = s.drop_first();
        encode_utf8_first_scalar(s);
        lemma_scalar_width(s[0]);
        assert(bytes == encode_scalar(s[0] as u32) + encode_utf8(rest));
        assert(pop_first_scalar(bytes) =~= encode_utf8(rest));
        assert(s.take(k) =~= seq![s[0]] + rest.take(k - 1));
        lemma_utf8_len_append(seq![s[0]], rest.take(k - 1));
        let one = seq![s[0]];
        assert(utf8_length(one.drop_last()) == 0);
        assert(one.last() == s[0]);
        lemma_offset_monotonic(s, k, s.len() as int);
        lemma_offset_full(s);
        lemma_encode_len(s);
        lemma_offset_is_char_boundary(rest, k - 1);
    }
}

/// The text between the char offsets `i` and `k` of `text`, given their byte
/// offsets `start_byte` and `end_byte`.
pub(crate) fn str_subrange<'a>(
    text: &'a str,
    start_byte: usize,
    end_byte: usize,
    Ghost(i): Ghost<int>,
    Ghost(k): Ghost<int>,
) -> (r: &'a str)
    requires
        0 <= i <= k <= text@.len(),
        start_byte == byte_offset(text@, i),
        end_byte == byte_offset(text@, k),
    ensures
        r@ == text@.subrange(i, k),
{
    broadcast use encode_utf8_decode_utf8;

    let ghost s = text@;
    proof {
        lemma_offset_is_char_boundary(s, k);
        lemma_encode_split(s, k);
    }
    let (head, _tail) = text.split_at(end_byte);
    proof {
        assert(encode_utf8(head@) == encode_utf8(s.take(k)));
        assert(decode_utf8(encode_utf8(head@)) == head@);
        assert(head@ == s.take(k));
        let h = s.take(k);
        assert(h.take(i) =~= s.take(i));
        reveal(byte_offset);
        lemma_offset_is_char_boundary(h, i);
        lemma_encode_split(h, i);
        lemma_encode_len(h);
    }
    let (_pre, r) = head.split_at(start_byte);
    proof {
        let h = s.take(k);
        assert(encode_utf8(r@) == encode_utf8(h.skip(i)));
        assert(decode_utf8(encode_utf8(r@)) == r@);
        assert(h.skip(i) =~= s.subrange(i, k));
    }
    r
}

/// The chars of `text`, in order.
pub fn chars_of(text: &str) -> (v: Vec<char>)
    ensures
        v@ == text@,
{
    broadcast use vstd::string::group_string_axioms;

    let mut v: Vec<char> = Vec::new();
    for c in it: text.chars()
        invariant
            v.len() == it.index(),
            forall|j: int| 0 <= j < v.len() ==> v@[j] == it.seq()[j],
    {
        v.push(c);
    }
    assert(v@ =~= text@);
    v
}

/// `utf8_width` of a char, computed.
pub fn char_utf8_width(c: char) -> (w: usize)
    ensures
        w == utf8_width(c),
{
    let u = c as u32;
    if u <= 0x7F {
        1
    } else if u <= 0x7FF {
        2
    } else if u <= 0xFFFF {
        3
    } else {
        4
    }
}

/// `utf16_width` of a char, computed.
pub fn char_utf16_width(c: char) -> (w: usize)
    ensures
        w == utf16_width(c),
{
    if c as u32 > 0xFFFF {
        2
    } else {
        1
    }
}

/// Appends `c` to `s`.
///
/// Trusted: calls `String::push`, whose documentation says that it appends the
/// given char to the end of the string; the contract states exactly that.
#[verifier::external_body]
pub(crate) fn push_char(s: &mut String, c: char)
    ensures
        final(s)@ == old(s)@.push(c),
{
    s.push(c);
}

/// Length of `text` in bytes, i.e. `utf8_length(text@)`.
pub fn byte_len(text: &str) -> (n: usize)
    ensures
        n == utf8_length(text@),
{
    let bytes = text.as_bytes();
    let n = bytes.len();
    proof {
        lemma_encode_len(text@);
    }
    n
}

/// Unicode's White_Space property (what `char::is_whitespace` tests).
pub open spec fn is_white_space(c: char) -> bool {
    let u = c as u32;
    ||| 0x9 <= u <= 0xD
    ||| u == 0x20
    ||| u == 0x85
    ||| u == 0xA0
    ||| u == 0x1680
    ||| 0x2000 <= u <= 0x200A
    ||| u == 0x2028
    ||| u == 0x2029
    ||| u == 0x202F
    ||| u == 0x205F
    ||| u == 0x3000
}

/// Whether `c` has Unicode's White_Space property.
pub fn is_white_space_char(c: char) -> (r: bool)
    ensures
        r == is_white_space(c),
{
    let u = c as u32;
    (0x9 <= u && u <= 0xD) || u == 0x20 || u == 0x85 || u == 0xA0 || u == 0x1680 || (0x2000 <= u
        && u <= 0x200A) || u == 0x2028 || u == 0x2029 || u == 0x202F || u == 0x205F || u == 0x3000
}

/// Number of leading white-space chars of `s`.
pub open spec fn leading_white_space(s: Seq<char>) -> int
    decreases s.len(),
{
    if s.len() > 0 && is_white_space(s[0]) {
        1 + leading_white_space(s.drop_first())
    } else {
        0
    }
}

/// Number of trailing white-space chars of `s`.
pub open spec fn trailing_white_space(s: Seq<char>) -> int
    decreases s.len(),
{
    if s.len() > 0 && is_white_space(s.last()) {
        1 + trailing_white_space(s.drop_last())
    } else {
        0
    }
}

/// `s` without its leading and trailing white space (what `str::trim` gives).
pub open spec fn trimmed(s: Seq<char>) -> Seq<char> {
    let lead = leading_white_space(s);
    if lead == s.len() {
        Seq::empty()
    } else {
        s.subrange(lead, s.len() - trailing_white_space(s))
    }
}

proof fn lemma_leading_white_space(s: Seq<char>, i: int)
    requires
        0 <= i <= s.len(),
        forall|m: int| 0 <= m < i ==> is_white_space(#[trigger] s[m]),
    ensures
        leading_white_space(s) == i + leading_white_space(s.skip(i)),
    decreases i,
{
    if i > 0 {
        assert(s.skip(1) =~= s.drop_first());
        lemma_leading_white_space(s.drop_first(), i - 1);
        assert(s.drop_first().skip(i - 1) =~= s.skip(i));
    } else {
        assert(s.skip(0) =~= s);
    }
}

proof fn lemma_trailing_white_space(s: Seq<char>, i: int)
    requires
        0 <= i <= s.len(),
        forall|m: int| i <= m < s.len() ==> is_white_space(#[trigger] s[m]),
    ensures
        trailing_white_space(s) == (s.len() - i) + trailing_white_space(s.take(i)),
    decreases s.len() - i,
{
    if i < s.len() {
        lemma_trailing_white_space(s.drop_last(), i);
        assert(s.drop_last().take(i) =~= s.take(i));
    } else {
        assert(s.take(i) =~= s);
    }
}

/// Whether two texts are the same.
pub fn same_text(a: &str, b: &str) -> (r: bool)
    ensures
        r == (a@ == b@),
{
    let x = chars_of(a);
    let y = chars_of(b);
    if x.len() != y.len() {
        return false;
    }
    let mut i: usize = 0;
    while i < x.len()
        invariant
            x@ == a@,
            y@ == b@,
            x.len() == y.len(),
            0 <= i <= x.len(),
            forall|m: int| 0 <= m < i ==> x@[m] == y@[m],
        decreases x.len() - i,
    {
        if x[i] != y[i] {
            return false;
        }
        i = i + 1;
    }
    proof {
        assert(x@ =~= y@);
    }
    true
}

/// Returns `text` with leading and trailing white space removed.
pub fn trim(text: &str) -> (r: &str)
    ensures
        r@ == trimmed(text@),
{
    let chars = chars_of(text);
    let ghost s = text@;
    let n = chars.len();
    let mut lead: usize = 0;
    while lead < n && is_white_space_char(chars[lead])
        invariant
            chars@ == s,
            n == s.len(),
            0 <= lead <= n,
            forall|m: int| 0 <= m < lead ==> is_white_space(#[trigger] s[m]),
        decreases n - lead,
    {
        lead = lead + 1;
    }
    proof {
        lemma_leading_white_space(s, lead as int);
        assert(s.skip(lead as int).len() == 0 || !is_white_space(s.skip(lead as int)[0]));
    }
    let mut end: usize = n;
    while end > lead && is_white_space_char(chars[end - 1])
        invariant
            chars@ == s,
            n == s.len(),
            lead <= end <= n,
            forall|m: int| end <= m < n ==> is_white_space(#[trigger] s[m]),
        decreases end,
    {
        end = end - 1;
    }
    proof {
        lemma_trailing_white_space(s, end as int);
        if end > lead {
            assert(s.take(end as int).last() == s[end - 1]);
        } else {
            assert(lead == n) by {
                if lead < n {
                    assert(is_white_space(s[lead as int]));
                }
            }
        }
    }
    // Byte offsets of the two cut points.
    let total = byte_len(text);
    let mut b: usize = 0;
    let mut b_lead: usize = 0;
    let mut i: usize = 0;
    proof {
        lemma_offset_zero(s);
    }
    while i < end
        invariant
            chars@ == s,
            n == s.len(),
            total == utf8_length(s),
            lead <= end <= n,
            0 <= i <= end,
            b == byte_offset(s, i as int),
            i > lead ==> b_lead == byte_offset(s, lead as int),
            i <= lead ==> b_lead == 0,
        decreases end - i,
    {
        proof {
            lemma_offset_step(s, i as int);
            lemma_offset_bounds(s, i + 1);
        }
        if i == lead {
            b_lead = b;
        }
        b = b + char_utf8_width(chars[i]);
        i = i + 1;
    }
    if end == lead {
        b_lead = b;
    }
    let r = str_subrange(text, b_lead, b, Ghost(lead as int), Ghost(end as int));
    proof {
        if lead == n {
            assert(r@ =~= Seq::<char>::empty());
        }
    }
    r
}

} // verus!
