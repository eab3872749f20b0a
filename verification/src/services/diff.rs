//! Applying edit suggestions to text.
//!
//! Edits are applied in reverse order (highest start first) so that the
//! positions of the edits still to be applied stay valid; of two overlapping
//! edits only the first (in that order) is applied.

use vstd::prelude::*;
use vstd::string::StringExecFns;
use crate::models::edit::Edit;
use crate::services::position::{js_index_to_byte, js_to_byte, PositionError};
use crate::text::{
    byte_len, byte_offset, is_js_boundary, js_char_index, js_offset, lemma_js_char_index_unique, lemma_offset_bounds,
    lemma_offset_full, lemma_offset_monotonic, lemma_offset_zero, str_subrange, utf16_length, utf8_length,
};

verus! {

/// Why a set of edits could not be applied.
#[derive(Debug, Clone, Copy, PartialEq, Eq, Structural)]
pub enum DiffError {
    /// The start position (first field) does not map into the text.
    InvalidStart(usize, PositionError),
    /// The end position (first field) does not map into the text.
    InvalidEnd(usize, PositionError),
}

/// `a` is applied no later than `b`: it starts later, or at the same position
/// and ends no earlier (so that an insertion at a position goes in after the
/// edit that replaces the text starting there).
pub open spec fn applies_before(a: Edit, b: Edit) -> bool {
    a.start_index > b.start_index || (a.start_index == b.start_index && a.end_index >= b.end_index)
}

/// `sorted` (in applying order) with `e` inserted after every edit that is
/// applied no later than it.
pub open spec fn insert_by_position_desc(sorted: Seq<Edit>, e: Edit) -> Seq<Edit>
    decreases sorted.len(),
{
    if sorted.len() == 0 || applies_before(sorted.last(), e) {
        sorted.push(e)
    } else {
        insert_by_position_desc(sorted.drop_last(), e).push(sorted.last())
    }
}

/// The stable sort of `edits` by descending start, and of equal starts by
/// descending end: edits at the same range keep their relative order.
pub open spec fn sort_by_position_desc(edits: Seq<Edit>) -> Seq<Edit>
    decreases edits.len(),
{
    if edits.len() == 0 {
        Seq::empty()
    } else {
        insert_by_position_desc(sort_by_position_desc(edits.drop_last()), edits.last())
    }
}

/// Two edits compete for the same text: their ranges overlap. (Two
/// non-empty edits that start at the same position overlap; an insertion
/// competes with no edit that merely starts or ends where it is.)
pub open spec fn clash(a: Edit, b: Edit) -> bool {
    a.start_index < b.end_index && b.start_index < a.end_index
}

/// `e` clashes with none of `kept`.
pub open spec fn clashes_with_none(kept: Seq<Edit>, e: Edit) -> bool {
    forall|k: int| 0 <= k < kept.len() ==> !clash(#[trigger] kept[k], e)
}

/// The edits of `edits` that clash with no edit kept before them, in input
/// order: of two competing edits, the one earlier in the list wins.
pub open spec fn kept_edits(edits: Seq<Edit>) -> Seq<Edit>
    decreases edits.len(),
{
    if edits.len() == 0 {
        Seq::empty()
    } else {
        let kept = kept_edits(edits.drop_last());
        if clashes_with_none(kept, edits.last()) {
            kept.push(edits.last())
        } else {
            kept
        }
    }
}

/// The edits that `apply_edits` applies, in the order it applies them: the
/// kept edits by descending start.
pub open spec fn applied_edits(edits: Seq<Edit>) -> Seq<Edit> {
    sort_by_position_desc(kept_edits(edits))
}

/// `text` with the UTF-16 range of `e` replaced (both ends must be boundaries).
pub open spec fn replace_range(text: Seq<char>, e: Edit) -> Seq<char> {
    text.take(js_char_index(text, e.start_index as int)) + e.replacement@ + text.skip(
        js_char_index(text, e.end_index as int),
    )
}

/// Applying `edits` one after the other to `text`.
pub open spec fn apply_in_order(text: Seq<char>, edits: Seq<Edit>) -> Result<Seq<char>, DiffError>
    decreases edits.len(),
{
    if edits.len() == 0 {
        Ok(text)
    } else {
        let e = edits[0];
        match js_to_byte(text, e.start_index) {
            Err(err) => Err(DiffError::InvalidStart(e.start_index, err)),
            Ok(_) => match js_to_byte(text, e.end_index) {
                Err(err) => Err(DiffError::InvalidEnd(e.end_index, err)),
                Ok(_) => apply_in_order(replace_range(text, e), edits.drop_first()),
            },
        }
    }
}

/// Applying `edits` in order reaches an edit whose both ends map into the
/// text but whose start lies after its end (the range replacement panics).
pub open spec fn apply_reaches_inverted_edit(text: Seq<char>, edits: Seq<Edit>) -> bool
    decreases edits.len(),
{
    edits.len() > 0 && {
        let e = edits[0];
        &&& js_to_byte(text, e.start_index) is Ok
        &&& js_to_byte(text, e.end_index) is Ok
        &&& (e.start_index > e.end_index || apply_reaches_inverted_edit(
            replace_range(text, e),
            edits.drop_first(),
        ))
    }
}

/// The edits at the positions `order` of `edits`.
pub open spec fn pick(edits: Seq<Edit>, order: Seq<usize>) -> Seq<Edit> {
    order.map_values(|k: usize| edits[k as int])
}

proof fn lemma_insert_at(sorted: Seq<Edit>, e: Edit, p: int)
    requires
        0 <= p <= sorted.len(),
        p == 0 || applies_before(sorted[p - 1], e),
        forall|q: int| p <= q < sorted.len() ==> !applies_before(#[trigger] sorted[q], e),
    ensures
        insert_by_position_desc(sorted, e) == sorted.insert(p, e),
    decreases sorted.len(),
{
    if p == sorted.len() {
        assert(sorted.insert(p, e) =~= sorted.push(e));
    } else {
        assert(!applies_before(sorted.last(), e));
        let d = sorted.drop_last();
        lemma_insert_at(d, e, p);
        assert(sorted.insert(p, e) =~= d.insert(p, e).push(sorted.last()));
    }
}

/// Returns true if two edits have overlapping ranges.
pub fn overlaps(a: &Edit, b: &Edit) -> (r: bool)
    ensures
        r == (a.start_index < b.end_index && b.start_index < a.end_index),
{
    a.start_index < b.end_index && b.start_index < a.end_index
}

/// Indices of `edits` in the order of a stable sort by descending start.
fn sort_indices_by_position_desc(edits: &[Edit]) -> (order: Vec<usize>)
    ensures
        pick(edits@, order@) == sort_by_position_desc(edits@),
        forall|q: int| 0 <= q < order.len() ==> #[trigger] order@[q] < edits.len(),
{
    let mut order: Vec<usize> = Vec::new();
    let mut i: usize = 0;
    proof {
        assert(edits@.take(0) =~= Seq::<Edit>::empty());
        assert(pick(edits@, order@) =~= Seq::<Edit>::empty());
    }
    while i < edits.len()
        invariant
            0 <= i <= edits.len(),
            pick(edits@, order@) == sort_by_position_desc(edits@.take(i as int)),
            forall|q: int| 0 <= q < order.len() ==> #[trigger] order@[q] < edits.len(),
        decreases edits.len() - i,
    {
        let start = edits[i].start_index;
        let end = edits[i].end_index;
        let mut p = order.len();
        while p > 0 && !(edits[order[p - 1]].start_index > start || (edits[order[p - 1]].start_index
            == start && edits[order[p - 1]].end_index >= end))
            invariant
                0 <= p <= order.len(),
                start == edits@[i as int].start_index,
                end == edits@[i as int].end_index,
                forall|q: int| 0 <= q < order.len() ==> #[trigger] order@[q] < edits.len(),
                forall|q: int|
                    p <= q < order.len() ==> !applies_before(
                        #[trigger] edits@[order@[q] as int],
                        edits@[i as int],
                    ),
            decreases p,
        {
            p = p - 1;
        }
        let ghost old_order = order@;
        order.insert(p, i);
        proof {
            let sorted = pick(edits@, old_order);
            let e = edits@[i as int];
            assert(p == 0 || applies_before(sorted[p - 1], e));
            assert forall|q: int| p <= q < sorted.len() implies !applies_before(#[trigger] sorted[q], e) by {
                assert(sorted[q] == edits@[old_order[q] as int]);
            }
            lemma_insert_at(sorted, e, p as int);
            assert(pick(edits@, order@) =~= sorted.insert(p as int, e));
            assert(edits@.take(i + 1).drop_last() =~= edits@.take(i as int));
            assert(edits@.take(i + 1).last() == e);
        }
        i = i + 1;
    }
    proof {
        assert(edits@.take(edits.len() as int) =~= edits@);
    }
    order
}

/// Whether two edits compete for the same text.
fn clashes(a: &Edit, b: &Edit) -> (r: bool)
    ensures
        r == clash(*a, *b),
{
    overlaps(a, b)
}

/// Removes edits that overlap an edit earlier in the list, which has
/// priority.
fn remove_overlapping(edits: &[Edit]) -> (kept: Vec<Edit>)
    ensures
        kept@ == kept_edits(edits@),
{
    let mut kept: Vec<Edit> = Vec::new();
    let mut i: usize = 0;
    proof {
        assert(edits@.take(0) =~= Seq::<Edit>::empty());
    }
    while i < edits.len()
        invariant
            0 <= i <= edits.len(),
            kept@ == kept_edits(edits@.take(i as int)),
        decreases edits.len() - i,
    {
        let e = &edits[i];
        let mut k: usize = 0;
        while k < kept.len() && !clashes(&kept[k], e)
            invariant
                0 <= k <= kept.len(),
                forall|m: int| 0 <= m < k ==> !clash(#[trigger] kept@[m], *e),
            decreases kept.len() - k,
        {
            k = k + 1;
        }
        proof {
            assert(edits@.take(i + 1).drop_last() =~= edits@.take(i as int));
            assert(edits@.take(i + 1).last() == *e);
        }
        if k == kept.len() {
            kept.push(e.clone());
        }
        i = i + 1;
    }
    proof {
        assert(edits@.take(edits.len() as int) =~= edits@);
    }
    kept
}

/// What `apply_edits` gives for `edits` on `text`.
pub open spec fn apply_edits_spec(text: Seq<char>, edits: Seq<Edit>) -> Result<Seq<char>, DiffError> {
    apply_in_order(text, applied_edits(edits))
}

/// Applies a list of edits to the given text, returning the corrected text.
///
/// Of two edits that overlap, only the one earlier in the list is kept; the
/// kept edits are applied by descending start (of equal starts, by descending
/// end; otherwise in list order), each position being mapped into the text
/// as it stands then.
pub fn apply_edits(text: &str, edits: &[Edit]) -> (r: Result<String, DiffError>)
    requires
        !apply_reaches_inverted_edit(text@, applied_edits(edits@)),
    ensures
        match apply_edits_spec(text@, edits@) {
            Ok(v) => r matches Ok(s) && s@ == v,
            Err(e) => r == Err::<String, DiffError>(e),
        },
{
    if edits.len() == 0 {
        proof {
            assert(kept_edits(edits@) =~= Seq::<Edit>::empty());
            assert(sort_by_position_desc(Seq::<Edit>::empty()) =~= Seq::<Edit>::empty());
        }
        return Ok(text.to_owned());
    }
    let kept = remove_overlapping(edits);
    let order = sort_indices_by_position_desc(kept.as_slice());
    let ghost applied = pick(kept@, order@);
    let mut result = text.to_owned();
    let mut j: usize = 0;
    proof {
        assert(applied.skip(0) =~= applied);
    }
    while j < order.len()
        invariant
            applied == pick(kept@, order@),
            applied == applied_edits(edits@),
            0 <= j <= order.len(),
            forall|q: int| 0 <= q < order.len() ==> #[trigger] order@[q] < kept.len(),
            apply_in_order(result@, applied.skip(j as int)) == apply_in_order(text@, applied),
            !apply_reaches_inverted_edit(result@, applied.skip(j as int)),
        decreases order.len() - j,
    {
        let edit = &kept[order[j]];
        let ghost cur = result@;
        let ghost rest = applied.skip(j as int);
        assert(rest[0] == *edit);
        assert(rest.drop_first() =~= applied.skip(j + 1));
        let start_byte = match js_index_to_byte(result.as_str(), edit.start_index) {
            Ok(b) => b,
            Err(e) => return Err(DiffError::InvalidStart(edit.start_index, e)),
        };
        let end_byte = match js_index_to_byte(result.as_str(), edit.end_index) {
            Ok(b) => b,
            Err(e) => return Err(DiffError::InvalidEnd(edit.end_index, e)),
        };
        let total = byte_len(result.as_str());
        let ghost i = js_char_index(cur, edit.start_index as int);
        let ghost k = js_char_index(cur, edit.end_index as int);
        proof {
            if k < i {
                lemma_offset_monotonic(cur, k, i);
            }
            lemma_offset_bounds(cur, i);
            lemma_offset_bounds(cur, k);
            lemma_offset_full(cur);
            lemma_offset_zero(cur);
        }
        let prefix = str_subrange(result.as_str(), 0, start_byte, Ghost(0), Ghost(i));
        let suffix = str_subrange(result.as_str(), end_byte, total, Ghost(k), Ghost(cur.len() as int));
        let mut next = String::from_str(prefix);
        next.append(edit.replacement.as_str());
        next.append(suffix);
        proof {
            assert(cur.subrange(0, i) =~= cur.take(i));
            assert(cur.subrange(k, cur.len() as int) =~= cur.skip(k));
            assert(next@ =~= replace_range(cur, *edit));
        }
        result = next;
        j = j + 1;
    }
    proof {
        assert(applied.skip(order.len() as int) =~= Seq::<Edit>::empty());
    }
    Ok(result)
}

/// The starts of the edits of `s` do not increase.
pub open spec fn starts_descending(s: Seq<Edit>) -> bool {
    forall|i: int, j: int|
        #![trigger s[i], s[j]]
        0 <= i < j < s.len() ==> s[j].start_index <= s[i].start_index
}

/// Every edit of `s` ends at or before the start of each edit before it.
pub open spec fn ends_before_earlier_starts(s: Seq<Edit>) -> bool {
    forall|i: int, j: int|
        #![trigger s[i], s[j]]
        0 <= i < j < s.len() ==> s[j].end_index <= s[i].start_index
}

/// The edits of `s` are in applying order (`applies_before`).
pub open spec fn order_descending(s: Seq<Edit>) -> bool {
    forall|i: int, j: int| #![trigger s[i], s[j]] 0 <= i < j < s.len() ==> applies_before(s[i], s[j])
}

/// No two edits of `s` (at different positions of it) overlap.
pub open spec fn no_two_clash(s: Seq<Edit>) -> bool {
    forall|i: int, j: int|
        #![trigger s[i], s[j]]
        0 <= i < s.len() && 0 <= j < s.len() && i != j ==> !clash(s[i], s[j])
}

proof fn lemma_insert_by_position_desc(sorted: Seq<Edit>, e: Edit)
    requires
        order_descending(sorted),
    ensures
        order_descending(insert_by_position_desc(sorted, e)),
        insert_by_position_desc(sorted, e).to_multiset() == sorted.to_multiset().insert(e),
        forall|k: int|
            0 <= k < insert_by_position_desc(sorted, e).len() ==> #[trigger] insert_by_position_desc(
                sorted,
                e,
            )[k] == e || sorted.contains(insert_by_position_desc(sorted, e)[k]),
    decreases sorted.len(),
{
    broadcast use vstd::seq_lib::group_to_multiset_ensures, vstd::multiset::group_multiset_axioms;

    let r = insert_by_position_desc(sorted, e);
    if sorted.len() == 0 || applies_before(sorted.last(), e) {
        assert forall|k: int| 0 <= k < r.len() implies #[trigger] r[k] == e || sorted.contains(
            r[k],
        ) by {
            if k < sorted.len() {
                assert(r[k] == sorted[k]);
            }
        }
        assert forall|i: int, j: int| #![trigger r[i], r[j]] 0 <= i < j < r.len() implies applies_before(
            r[i],
            r[j],
        ) by {
            assert(r[i] == sorted[i]);
            if j < sorted.len() {
                assert(r[j] == sorted[j]);
            } else if i < sorted.len() - 1 {
                assert(applies_before(sorted[i], sorted[sorted.len() - 1]));
            }
        }
    } else {
        let d = sorted.drop_last();
        let last = sorted.last();
        assert(order_descending(d)) by {
            assert forall|i: int, j: int| #![trigger d[i], d[j]] 0 <= i < j < d.len() implies applies_before(
                d[i],
                d[j],
            ) by {
                assert(d[i] == sorted[i] && d[j] == sorted[j]);
            }
        }
        lemma_insert_by_position_desc(d, e);
        let r0 = insert_by_position_desc(d, e);
        assert(sorted =~= d.push(last));
        assert(r == r0.push(last));
        assert forall|k: int| 0 <= k < r0.len() implies applies_before(#[trigger] r0[k], last) by {
            if r0[k] != e {
                let m = choose|m: int| 0 <= m < d.len() && d[m] == r0[k];
                assert(sorted[m] == d[m]);
                assert(sorted[sorted.len() - 1] == last);
            }
        }
        assert forall|i: int, j: int| #![trigger r[i], r[j]] 0 <= i < j < r.len() implies applies_before(
            r[i],
            r[j],
        ) by {
            if j < r0.len() {
                assert(r[i] == r0[i] && r[j] == r0[j]);
            } else {
                assert(r[i] == r0[i]);
            }
        }
        assert forall|k: int| 0 <= k < r.len() implies #[trigger] r[k] == e || sorted.contains(
            r[k],
        ) by {
            if k < r0.len() {
                assert(r[k] == r0[k]);
                if r0[k] != e {
                    let m = choose|m: int| 0 <= m < d.len() && d[m] == r0[k];
                    assert(sorted[m] == d[m]);
                }
            } else {
                assert(r[k] == sorted[sorted.len() - 1]);
            }
        }
    }
}

/// The stable sort puts the edits in applying order (so by descending start)
/// and keeps each of them (as many times as it occurs).
pub proof fn lemma_sort_by_position_desc(edits: Seq<Edit>)
    ensures
        order_descending(sort_by_position_desc(edits)),
        starts_descending(sort_by_position_desc(edits)),
        sort_by_position_desc(edits).to_multiset() == edits.to_multiset(),
    decreases edits.len(),
{
    broadcast use vstd::seq_lib::group_to_multiset_ensures;

    if edits.len() > 0 {
        let d = edits.drop_last();
        lemma_sort_by_position_desc(d);
        lemma_insert_by_position_desc(sort_by_position_desc(d), edits.last());
        assert(edits =~= d.push(edits.last()));
    }
    let r = sort_by_position_desc(edits);
    assert forall|i: int, j: int| #![trigger r[i], r[j]] 0 <= i < j < r.len() implies r[j].start_index
        <= r[i].start_index by {
        assert(applies_before(r[i], r[j]));
    }
}

/// Inserting an edit that clashes with none keeps a sequence free of clashes.
proof fn lemma_insert_no_clash(sorted: Seq<Edit>, e: Edit)
    requires
        no_two_clash(sorted),
        forall|k: int| 0 <= k < sorted.len() ==> !clash(#[trigger] sorted[k], e),
    ensures
        no_two_clash(insert_by_position_desc(sorted, e)),
    decreases sorted.len(),
{
    let r = insert_by_position_desc(sorted, e);
    if sorted.len() == 0 || applies_before(sorted.last(), e) {
        assert forall|i: int, j: int| #![trigger r[i], r[j]]
            0 <= i < r.len() && 0 <= j < r.len() && i != j implies !clash(r[i], r[j]) by {
            if i < sorted.len() {
                assert(r[i] == sorted[i]);
            }
            if j < sorted.len() {
                assert(r[j] == sorted[j]);
            }
        }
    } else {
        let d = sorted.drop_last();
        let last = sorted.last();
        assert(sorted =~= d.push(last));
        assert(last == sorted[sorted.len() - 1]);
        assert(no_two_clash(d)) by {
            assert forall|i: int, j: int| #![trigger d[i], d[j]]
                0 <= i < d.len() && 0 <= j < d.len() && i != j implies !clash(d[i], d[j]) by {
                assert(d[i] == sorted[i] && d[j] == sorted[j]);
            }
        }
        assert forall|k: int| 0 <= k < d.len() implies !clash(#[trigger] d[k], e) by {
            assert(d[k] == sorted[k]);
        }
        lemma_insert_no_clash(d, e);
        lemma_insert_by_position_desc_contains(d, e);
        let r0 = insert_by_position_desc(d, e);
        assert(r == r0.push(last));
        assert forall|k: int| 0 <= k < r0.len() implies !clash(#[trigger] r0[k], last) && !clash(
            last,
            r0[k],
        ) by {
            if r0[k] != e {
                let m = choose|m: int| 0 <= m < d.len() && d[m] == r0[k];
                assert(sorted[m] == d[m]);
            }
        }
        assert forall|i: int, j: int| #![trigger r[i], r[j]]
            0 <= i < r.len() && 0 <= j < r.len() && i != j implies !clash(r[i], r[j]) by {
            if i < r0.len() {
                assert(r[i] == r0[i]);
            }
            if j < r0.len() {
                assert(r[j] == r0[j]);
            }
        }
    }
}

/// Every edit of an insertion is the inserted one or one of the sequence's.
proof fn lemma_insert_by_position_desc_contains(sorted: Seq<Edit>, e: Edit)
    ensures
        forall|k: int|
            0 <= k < insert_by_position_desc(sorted, e).len() ==> #[trigger] insert_by_position_desc(
                sorted,
                e,
            )[k] == e || sorted.contains(insert_by_position_desc(sorted, e)[k]),
    decreases sorted.len(),
{
    let r = insert_by_position_desc(sorted, e);
    if sorted.len() == 0 || applies_before(sorted.last(), e) {
        assert forall|k: int| 0 <= k < r.len() implies #[trigger] r[k] == e || sorted.contains(
            r[k],
        ) by {
            if k < sorted.len() {
                assert(r[k] == sorted[k]);
            }
        }
    } else {
        let d = sorted.drop_last();
        lemma_insert_by_position_desc_contains(d, e);
        let r0 = insert_by_position_desc(d, e);
        assert forall|k: int| 0 <= k < r.len() implies #[trigger] r[k] == e || sorted.contains(
            r[k],
        ) by {
            if k < r0.len() {
                assert(r[k] == r0[k]);
                if r0[k] != e {
                    let m = choose|m: int| 0 <= m < d.len() && d[m] == r0[k];
                    assert(sorted[m] == d[m]);
                }
            } else {
                assert(r[k] == sorted[sorted.len() - 1]);
            }
        }
    }
}

/// Sorting keeps a sequence free of clashes.
proof fn lemma_sort_no_clash(edits: Seq<Edit>)
    requires
        no_two_clash(edits),
    ensures
        no_two_clash(sort_by_position_desc(edits)),
    decreases edits.len(),
{
    broadcast use vstd::seq_lib::group_to_multiset_ensures;

    if edits.len() > 0 {
        let d = edits.drop_last();
        let e = edits.last();
        assert(e == edits[edits.len() - 1]);
        assert(no_two_clash(d)) by {
            assert forall|i: int, j: int| #![trigger d[i], d[j]]
                0 <= i < d.len() && 0 <= j < d.len() && i != j implies !clash(d[i], d[j]) by {
                assert(d[i] == edits[i] && d[j] == edits[j]);
            }
        }
        lemma_sort_no_clash(d);
        lemma_sort_by_position_desc(d);
        let sd = sort_by_position_desc(d);
        assert forall|k: int| 0 <= k < sd.len() implies !clash(#[trigger] sd[k], e) by {
            assert(sd.to_multiset().count(sd[k]) > 0);
            assert(d.contains(sd[k]));
            let m = choose|m: int| 0 <= m < d.len() && d[m] == sd[k];
            assert(edits[m] == d[m]);
        }
        lemma_insert_no_clash(sd, e);
    }
}

/// The starts of the edits of `s` strictly decrease.
pub open spec fn starts_strictly_descending(s: Seq<Edit>) -> bool {
    forall|i: int, j: int|
        #![trigger s[i], s[j]]
        0 <= i < j < s.len() ==> s[j].start_index < s[i].start_index
}

/// No edit of `edits` starts after its end.
pub open spec fn none_inverted(edits: Seq<Edit>) -> bool {
    forall|k: int| 0 <= k < edits.len() ==> #[trigger] edits[k].start_index <= edits[k].end_index
}

/// A sequence whose elements pairwise differ keeps that in any reordering.
proof fn lemma_no_duplicates_permuted(a: Seq<Edit>, b: Seq<Edit>)
    requires
        a.no_duplicates(),
        a.to_multiset() == b.to_multiset(),
    ensures
        b.no_duplicates(),
{
    a.lemma_multiset_has_no_duplicates();
    b.lemma_multiset_has_no_duplicates_conv();
}

/// The kept edits are input edits, and no two of them overlap.
proof fn lemma_kept_edits(edits: Seq<Edit>)
    ensures
        no_two_clash(kept_edits(edits)),
        forall|m: int|
            0 <= m < kept_edits(edits).len() ==> edits.contains(#[trigger] kept_edits(edits)[m]),
    decreases edits.len(),
{
    if edits.len() > 0 {
        let d = edits.drop_last();
        let e = edits.last();
        lemma_kept_edits(d);
        let k0 = kept_edits(d);
        let k = kept_edits(edits);
        assert(e == edits[edits.len() - 1]);
        assert forall|m: int| 0 <= m < k0.len() implies edits.contains(#[trigger] k0[m]) by {
            let a = choose|a: int| 0 <= a < d.len() && d[a] == k0[m];
            assert(edits[a] == d[a]);
        }
        if clashes_with_none(k0, e) {
            assert(k == k0.push(e));
            assert forall|i: int, j: int| #![trigger k[i], k[j]]
                0 <= i < k.len() && 0 <= j < k.len() && i != j implies !clash(k[i], k[j]) by {
                if i < k0.len() && j < k0.len() {
                    assert(k[i] == k0[i] && k[j] == k0[j]);
                } else if i < k0.len() {
                    assert(k[i] == k0[i] && k[j] == e);
                } else {
                    assert(k[j] == k0[j] && k[i] == e);
                }
            }
            assert forall|m: int| 0 <= m < k.len() implies edits.contains(#[trigger] k[m]) by {
                if m < k0.len() {
                    assert(k[m] == k0[m]);
                }
            }
        }
    }
}

/// The edits that `apply_edits` applies are input edits, in applying order
/// (so by descending start), and no two of them overlap; when no input edit
/// is inverted, each ends at or before the start of every edit applied
/// before it.
pub proof fn lemma_applied_edits_order(edits: Seq<Edit>)
    ensures
        forall|k: int|
            0 <= k < applied_edits(edits).len() ==> edits.contains(
                #[trigger] applied_edits(edits)[k],
            ),
        order_descending(applied_edits(edits)),
        starts_descending(applied_edits(edits)),
        no_two_clash(applied_edits(edits)),
        none_inverted(edits) ==> ends_before_earlier_starts(applied_edits(edits)),
{
    broadcast use vstd::seq_lib::group_to_multiset_ensures;

    let k = kept_edits(edits);
    lemma_kept_edits(edits);
    lemma_sort_by_position_desc(k);
    lemma_sort_no_clash(k);
    let r = applied_edits(edits);
    assert forall|m: int| 0 <= m < r.len() implies edits.contains(#[trigger] r[m]) by {
        assert(r.to_multiset().count(r[m]) > 0);
        assert(k.contains(r[m]));
        let a = choose|a: int| 0 <= a < k.len() && k[a] == r[m];
        assert(edits.contains(k[a]));
    }
    if none_inverted(edits) {
        assert forall|i: int, j: int| #![trigger r[i], r[j]] 0 <= i < j < r.len() implies r[j].end_index
            <= r[i].start_index by {
            assert(applies_before(r[i], r[j]));
            assert(!clash(r[i], r[j]));
            assert(edits.contains(r[i]) && edits.contains(r[j]));
            let c = choose|c: int| 0 <= c < edits.len() && edits[c] == r[i];
            let d = choose|d: int| 0 <= d < edits.len() && edits[d] == r[j];
            assert(edits[c].start_index <= edits[c].end_index);
            assert(edits[d].start_index <= edits[d].end_index);
        }
    }
}

proof fn lemma_no_inverted_edit(text: Seq<char>, s: Seq<Edit>)
    requires
        forall|k: int| 0 <= k < s.len() ==> #[trigger] s[k].start_index <= s[k].end_index,
    ensures
        !apply_reaches_inverted_edit(text, s),
    decreases s.len(),
{
    if s.len() > 0 {
        let rest = s.drop_first();
        assert forall|k: int| 0 <= k < rest.len() implies #[trigger] rest[k].start_index
            <= rest[k].end_index by {
            assert(rest[k] == s[k + 1]);
        }
        lemma_no_inverted_edit(replace_range(text, s[0]), rest);
    }
}

/// When no edit starts after its end, applying them never reaches an
/// inverted range (on which replacing the range would panic).
pub proof fn lemma_ordered_edits_apply_without_panic(text: Seq<char>, edits: Seq<Edit>)
    requires
        none_inverted(edits),
    ensures
        !apply_reaches_inverted_edit(text, applied_edits(edits)),
{
    lemma_applied_edits_order(edits);
    let r = applied_edits(edits);
    assert forall|k: int| 0 <= k < r.len() implies #[trigger] r[k].start_index <= r[k].end_index by {
        assert(edits.contains(r[k]));
        let m = choose|m: int| 0 <= m < edits.len() && edits[m] == r[k];
        assert(edits[m].start_index <= edits[m].end_index);
    }
    lemma_no_inverted_edit(text, r);
}

/// `text` with each edit of `edits` replacing the UTF-16 range it names in
/// `text` itself, for edits ordered so that each ends at or before the start
/// of every edit before it.
pub open spec fn splice(text: Seq<char>, edits: Seq<Edit>) -> Seq<char>
    decreases edits.len(),
{
    if edits.len() == 0 {
        text
    } else {
        let e = edits[0];
        splice(text.take(js_char_index(text, e.start_index as int)), edits.drop_first())
            + e.replacement@ + text.skip(js_char_index(text, e.end_index as int))
    }
}

/// Both ends of every edit of `edits` fall on char starts of `text` (or on
/// its end), and no edit starts after its end.
pub open spec fn edits_fit(text: Seq<char>, edits: Seq<Edit>) -> bool {
    forall|k: int|
        0 <= k < edits.len() ==> {
            &&& is_js_boundary(text, #[trigger] edits[k].start_index as int)
            &&& is_js_boundary(text, edits[k].end_index as int)
            &&& edits[k].start_index <= edits[k].end_index
        }
}

/// UTF-16 offsets of the first chars of `s` are the same in `s` followed by
/// anything, and in any prefix of `s` that holds them.
proof fn lemma_offsets_in_context(s: Seq<char>, tail: Seq<char>, p: int, m: int)
    requires
        0 <= m <= p <= s.len(),
    ensures
        js_offset(s + tail, m) == js_offset(s, m),
        js_offset(s.take(p), m) == js_offset(s, m),
{
    reveal(js_offset);
    assert((s + tail).take(m) =~= s.take(m));
    assert(s.take(p).take(m) =~= s.take(m));
}

/// A char start of `s` is one of `s` followed by anything, at the same char.
proof fn lemma_boundary_extended(s: Seq<char>, tail: Seq<char>, j: int)
    requires
        is_js_boundary(s, j),
    ensures
        is_js_boundary(s + tail, j),
        js_char_index(s + tail, j) == js_char_index(s, j),
        j <= utf16_length(s + tail),
{
    let k = js_char_index(s, j);
    lemma_offsets_in_context(s, tail, k, k);
    lemma_js_char_index_unique(s + tail, j, k);
    lemma_offset_bounds(s + tail, k);
}

/// A char start of `s` at or before the UTF-16 offset of char `p` is one of
/// the first `p` chars, at the same char.
proof fn lemma_boundary_in_prefix(s: Seq<char>, p: int, j: int)
    requires
        0 <= p <= s.len(),
        is_js_boundary(s, j),
        j <= js_offset(s, p),
    ensures
        is_js_boundary(s.take(p), j),
        js_char_index(s.take(p), j) == js_char_index(s, j),
{
    let k = js_char_index(s, j);
    if k > p {
        lemma_offset_monotonic(s, p, k);
    }
    lemma_offsets_in_context(s, Seq::empty(), p, k);
    lemma_js_char_index_unique(s.take(p), j, k);
}

proof fn lemma_apply_splice(text: Seq<char>, tail: Seq<char>, edits: Seq<Edit>)
    requires
        edits_fit(text, edits),
        ends_before_earlier_starts(edits),
    ensures
        apply_in_order(text + tail, edits) == Ok::<Seq<char>, DiffError>(splice(text, edits) + tail),
    decreases edits.len(),
{
    if edits.len() > 0 {
        let e = edits[0];
        let full = text + tail;
        let i = js_char_index(text, e.start_index as int);
        let k = js_char_index(text, e.end_index as int);
        assert(is_js_boundary(text, e.start_index as int));
        lemma_boundary_extended(text, tail, e.start_index as int);
        lemma_boundary_extended(text, tail, e.end_index as int);
        assert(0 <= i <= text.len() && js_offset(text, i) == e.start_index);
        assert(0 <= k <= text.len() && js_offset(text, k) == e.end_index);
        if k < i {
            lemma_offset_monotonic(text, k, i);
        }
        let rest = edits.drop_first();
        let tail2 = e.replacement@ + text.skip(k) + tail;
        assert(replace_range(full, e) =~= text.take(i) + tail2);
        assert forall|m: int| 0 <= m < rest.len() implies {
            &&& is_js_boundary(text.take(i), #[trigger] rest[m].start_index as int)
            &&& is_js_boundary(text.take(i), rest[m].end_index as int)
            &&& rest[m].start_index <= rest[m].end_index
        } by {
            assert(rest[m] == edits[m + 1]);
            assert(edits[m + 1].end_index <= edits[0].start_index);
            lemma_boundary_in_prefix(text, i, rest[m].start_index as int);
            lemma_boundary_in_prefix(text, i, rest[m].end_index as int);
        }
        assert forall|a: int, b: int| #![trigger rest[a], rest[b]] 0 <= a < b < rest.len() implies rest[b].end_index
            <= rest[a].start_index by {
            assert(rest[a] == edits[a + 1] && rest[b] == edits[b + 1]);
        }
        lemma_apply_splice(text.take(i), tail2, rest);
        assert(splice(text, edits) + tail =~= splice(text.take(i), rest) + tail2);
    } else {
        assert(splice(text, edits) + tail =~= text + tail);
    }
}

/// Applying edits whose ends fall on char starts of the text, none starting
/// after its end, replaces for each applied edit the range it names in the
/// text as given: applying them by descending start keeps the positions of
/// the edits still to come valid.
pub proof fn lemma_apply_edits_in_place(text: Seq<char>, edits: Seq<Edit>)
    requires
        edits_fit(text, edits),
    ensures
        apply_edits_spec(text, edits) == Ok::<Seq<char>, DiffError>(
            splice(text, applied_edits(edits)),
        ),
{
    assert(none_inverted(edits));
    lemma_applied_edits_order(edits);
    let r = applied_edits(edits);
    assert forall|k: int| 0 <= k < r.len() implies {
        &&& is_js_boundary(text, #[trigger] r[k].start_index as int)
        &&& is_js_boundary(text, r[k].end_index as int)
        &&& r[k].start_index <= r[k].end_index
    } by {
        assert(edits.contains(r[k]));
        let m = choose|m: int| 0 <= m < edits.len() && edits[m] == r[k];
        assert(edits[m] == r[k]);
    }
    lemma_apply_splice(text, Seq::empty(), r);
    assert(text + Seq::<char>::empty() =~= text);
    assert(splice(text, r) + Seq::<char>::empty() =~= splice(text, r));
}

/// No two edits of `edits` (at different positions of it) overlap, and none
/// is empty or inverted.
pub open spec fn pairwise_disjoint(edits: Seq<Edit>) -> bool {
    &&& forall|k: int| 0 <= k < edits.len() ==> #[trigger] edits[k].start_index < edits[k].end_index
    &&& forall|i: int, j: int|
        #![trigger edits[i], edits[j]]
        0 <= i < edits.len() && 0 <= j < edits.len() && i != j ==> !(edits[i].start_index
            < edits[j].end_index && edits[j].start_index < edits[i].end_index)
}

/// When no two edits overlap and none is empty or inverted, every edit is
/// kept.
proof fn lemma_disjoint_kept_all(edits: Seq<Edit>)
    requires
        pairwise_disjoint(edits),
    ensures
        kept_edits(edits) == edits,
    decreases edits.len(),
{
    if edits.len() > 0 {
        let d = edits.drop_last();
        let e = edits.last();
        assert(e == edits[edits.len() - 1]);
        assert forall|i: int, j: int| #![trigger d[i], d[j]]
            0 <= i < d.len() && 0 <= j < d.len() && i != j implies !(d[i].start_index
            < d[j].end_index && d[j].start_index < d[i].end_index) by {
            assert(d[i] == edits[i] && d[j] == edits[j]);
        }
        assert forall|k: int| 0 <= k < d.len() implies #[trigger] d[k].start_index < d[k].end_index by {
            assert(d[k] == edits[k]);
        }
        lemma_disjoint_kept_all(d);
        assert forall|k: int| 0 <= k < d.len() implies !clash(#[trigger] d[k], e) by {
            assert(d[k] == edits[k]);
            assert(edits[k].start_index < edits[k].end_index);
        }
        assert(edits =~= d.push(e));
    }
}

/// When no two edits overlap and none is empty or inverted, every edit is
/// applied: the applied edits are the input edits, reordered.
pub proof fn lemma_disjoint_edits_all_applied(edits: Seq<Edit>)
    requires
        pairwise_disjoint(edits),
    ensures
        applied_edits(edits).to_multiset() == edits.to_multiset(),
{
    lemma_disjoint_kept_all(edits);
    lemma_sort_by_position_desc(edits);
}

/// Two sequences with strictly decreasing starts that hold the same edits are
/// equal.
proof fn lemma_strictly_descending_unique(a: Seq<Edit>, b: Seq<Edit>)
    requires
        starts_strictly_descending(a),
        starts_strictly_descending(b),
        a.to_multiset() == b.to_multiset(),
    ensures
        a == b,
    decreases a.len(),
{
    broadcast use vstd::seq_lib::group_to_multiset_ensures;

    if a.len() == 0 {
        assert(b.len() == 0);
        assert(a =~= b);
    } else {
        assert(a.to_multiset().len() == a.len());
        assert(b.to_multiset().len() == b.len());
        assert(b.len() == a.len());
        assert(a.to_multiset().count(a[0]) > 0);
        assert(b.contains(a[0]));
        assert(b.to_multiset().count(b[0]) > 0);
        assert(a.contains(b[0]));
        let m = choose|m: int| 0 <= m < b.len() && b[m] == a[0];
        let n = choose|n: int| 0 <= n < a.len() && a[n] == b[0];
        if m > 0 {
            assert(b[m].start_index < b[0].start_index);
            if n > 0 {
                assert(a[n].start_index < a[0].start_index);
            }
            assert(false);
        }
        assert(a[0] == b[0]);
        assert(a.remove(0) =~= a.drop_first());
        assert(b.remove(0) =~= b.drop_first());
        let a1 = a.drop_first();
        let b1 = b.drop_first();
        assert forall|i: int, j: int| #![trigger a1[i], a1[j]] 0 <= i < j < a1.len() implies a1[j].start_index
            < a1[i].start_index by {
            assert(a1[i] == a[i + 1] && a1[j] == a[j + 1]);
        }
        assert forall|i: int, j: int| #![trigger b1[i], b1[j]] 0 <= i < j < b1.len() implies b1[j].start_index
            < b1[i].start_index by {
            assert(b1[i] == b[i + 1] && b1[j] == b[j + 1]);
        }
        lemma_strictly_descending_unique(a1, b1);
        assert(a =~= seq![a[0]] + a1);
        assert(b =~= seq![b[0]] + b1);
    }
}

/// Disjoint edits stay disjoint in any reordering.
proof fn lemma_disjoint_permuted(edits: Seq<Edit>, perm: Seq<Edit>)
    requires
        pairwise_disjoint(edits),
        perm.to_multiset() == edits.to_multiset(),
    ensures
        pairwise_disjoint(perm),
{
    broadcast use vstd::seq_lib::group_to_multiset_ensures;

    assert forall|i: int, j: int| 0 <= i < edits.len() && 0 <= j < edits.len() && i != j implies edits[i]
        != edits[j] by {
        assert(edits[i].start_index < edits[i].end_index);
    }
    lemma_no_duplicates_permuted(edits, perm);
    assert forall|k: int| 0 <= k < perm.len() implies edits.contains(#[trigger] perm[k]) by {
        assert(perm.to_multiset().count(perm[k]) > 0);
    }
    assert forall|k: int| 0 <= k < perm.len() implies #[trigger] perm[k].start_index
        < perm[k].end_index by {
        assert(edits.contains(perm[k]));
        let a = choose|a: int| 0 <= a < edits.len() && edits[a] == perm[k];
        assert(edits[a].start_index < edits[a].end_index);
    }
    assert forall|i: int, j: int| #![trigger perm[i], perm[j]]
        0 <= i < perm.len() && 0 <= j < perm.len() && i != j implies !(perm[i].start_index
        < perm[j].end_index && perm[j].start_index < perm[i].end_index) by {
        assert(edits.contains(perm[i]) && edits.contains(perm[j]));
        let a = choose|a: int| 0 <= a < edits.len() && edits[a] == perm[i];
        let b = choose|b: int| 0 <= b < edits.len() && edits[b] == perm[j];
        assert(edits[a] != edits[b]);
    }
}

/// Disjoint, non-empty edits are applied with strictly decreasing starts.
proof fn lemma_disjoint_applied_strictly(edits: Seq<Edit>)
    requires
        pairwise_disjoint(edits),
    ensures
        starts_strictly_descending(applied_edits(edits)),
{
    lemma_applied_edits_order(edits);
    let r = applied_edits(edits);
    assert forall|i: int, j: int| #![trigger r[i], r[j]] 0 <= i < j < r.len() implies r[j].start_index
        < r[i].start_index by {
        assert(applies_before(r[i], r[j]));
        assert(!clash(r[i], r[j]));
        assert(edits.contains(r[i]) && edits.contains(r[j]));
        let c = choose|c: int| 0 <= c < edits.len() && edits[c] == r[i];
        let d = choose|d: int| 0 <= d < edits.len() && edits[d] == r[j];
        assert(edits[c].start_index < edits[c].end_index);
        assert(edits[d].start_index < edits[d].end_index);
    }
}

/// Applying edits that are pairwise disjoint and non-empty gives the same
/// result whatever their order in the list.
pub proof fn lemma_permutation_invariant(text: Seq<char>, edits: Seq<Edit>, perm: Seq<Edit>)
    requires
        pairwise_disjoint(edits),
        perm.to_multiset() == edits.to_multiset(),
    ensures
        apply_edits_spec(text, perm) == apply_edits_spec(text, edits),
{
    lemma_disjoint_permuted(edits, perm);
    lemma_disjoint_kept_all(edits);
    lemma_disjoint_kept_all(perm);
    lemma_disjoint_applied_strictly(edits);
    lemma_disjoint_applied_strictly(perm);
    lemma_sort_by_position_desc(edits);
    lemma_sort_by_position_desc(perm);
    lemma_strictly_descending_unique(applied_edits(edits), applied_edits(perm));
}

/// Each input edit is kept, or overlaps a kept edit listed before it.
proof fn lemma_kept_or_blocked(edits: Seq<Edit>)
    ensures
        forall|i: int|
            #![trigger edits[i]]
            0 <= i < edits.len() ==> kept_edits(edits).contains(edits[i]) || exists|j: int|
                0 <= j < i && kept_edits(edits).contains(#[trigger] edits[j]) && clash(
                    edits[j],
                    edits[i],
                ),
    decreases edits.len(),
{
    if edits.len() > 0 {
        let d = edits.drop_last();
        let e = edits.last();
        lemma_kept_or_blocked(d);
        lemma_kept_edits(d);
        let k0 = kept_edits(d);
        let k = kept_edits(edits);
        assert(e == edits[edits.len() - 1]);
        // Whatever was kept of the prefix is still kept.
        assert(forall|x: Edit| k0.contains(x) ==> k.contains(x)) by {
            if clashes_with_none(k0, e) {
                assert(k == k0.push(e));
                assert forall|x: Edit| k0.contains(x) implies k.contains(x) by {
                    let a = choose|a: int| 0 <= a < k0.len() && k0[a] == x;
                    assert(k[a] == x);
                }
            }
        }
        assert forall|i: int| #![trigger edits[i]] 0 <= i < edits.len() implies k.contains(edits[i])
            || exists|j: int| 0 <= j < i && k.contains(#[trigger] edits[j]) && clash(
                edits[j],
                edits[i],
            ) by {
            if i < d.len() {
                assert(edits[i] == d[i]);
                if !k0.contains(d[i]) {
                    let j = choose|j: int| 0 <= j < i && k0.contains(#[trigger] d[j]) && clash(d[j], d[i]);
                    assert(edits[j] == d[j]);
                    assert(k.contains(edits[j]));
                }
            } else if clashes_with_none(k0, e) {
                assert(k == k0.push(e));
                assert(k[k0.len() as int] == e);
            } else {
                let m = choose|m: int| 0 <= m < k0.len() && clash(#[trigger] k0[m], e);
                assert(d.contains(k0[m]));
                let j = choose|j: int| 0 <= j < d.len() && d[j] == k0[m];
                assert(edits[j] == d[j]);
                assert(k0.contains(k0[m]));
                assert(k.contains(edits[j]));
            }
        }
    }
}

/// Which edits are applied: no two applied edits overlap, and an input edit is
/// left out only because it overlaps an applied edit listed before it. So
/// every input edit that overlaps none of the applied edits listed before it
/// is applied; of three chained edits where only the first two and the last
/// two overlap, the first and the last are applied.
pub proof fn lemma_applied_edits_choice(edits: Seq<Edit>)
    ensures
        forall|i: int, j: int|
            #![trigger applied_edits(edits)[i], applied_edits(edits)[j]]
            0 <= i < applied_edits(edits).len() && 0 <= j < applied_edits(edits).len() && i != j
                ==> !(applied_edits(edits)[i].start_index < applied_edits(edits)[j].end_index
                && applied_edits(edits)[j].start_index < applied_edits(edits)[i].end_index),
        forall|i: int|
            #![trigger edits[i]]
            0 <= i < edits.len() && (forall|j: int|
                0 <= j < i && applied_edits(edits).contains(#[trigger] edits[j]) ==> !(
                edits[j].start_index < edits[i].end_index && edits[i].start_index
                < edits[j].end_index)) ==> applied_edits(edits).contains(edits[i]),
{
    broadcast use vstd::seq_lib::group_to_multiset_ensures;

    lemma_applied_edits_order(edits);
    lemma_kept_or_blocked(edits);
    let k = kept_edits(edits);
    let r = applied_edits(edits);
    lemma_sort_by_position_desc(k);
    assert forall|x: Edit| k.contains(x) <==> r.contains(x) by {
        assert(k.to_multiset().count(x) == r.to_multiset().count(x));
    }
    assert forall|i: int, j: int| #![trigger r[i], r[j]]
        0 <= i < r.len() && 0 <= j < r.len() && i != j implies !(r[i].start_index < r[j].end_index
        && r[j].start_index < r[i].end_index) by {
        assert(!clash(r[i], r[j]));
    }
}

} // verus!
