//! Conversions between byte columns and visual columns counted in grapheme
//! clusters, where a column past the last cluster counts the clusters.

use std::ops::Range;
use vstd::prelude::*;
use vstd::std_specs::cmp::PartialEqSpec;
use crate::conversion::{
    find_marked_bounds, is_first_marked, is_last_marked, lemma_first_marked_exists,
    lemma_last_marked_exists, lemma_marked_bounds_chosen,
};
use crate::graphemes::{
    lemma_rounds_up,
    bytepos_of, charpos_of, extended_grapheme_offsets, find_first_at_least, grapheme_offsets,
    lemma_charpos_bytepos_charpos, lemma_charpos_of_end, lemma_charpos_of_offset,
    offsets_well_formed, str_byte_len, is_char_boundary_of,
};

verus! {

/// The visual column of byte column `bytecol` in `line`: the index of the
/// first grapheme cluster that starts at or after `bytecol`, or the number of
/// clusters when none does.
pub open spec fn spec_bytepos_to_charpos(line: Seq<char>, bytecol: usize) -> int {
    let offsets = extended_grapheme_offsets(line);
    charpos_of(offsets, bytecol, offsets.len() as int)
}

/// The byte column of visual column `charcol` in `line`: where grapheme
/// cluster `charcol` starts, or the byte length of the line past the last one.
pub open spec fn spec_charpos_to_bytepos(line: Seq<char>, len: int, charcol: usize) -> int {
    bytepos_of(extended_grapheme_offsets(line), len, charcol as int)
}

/// Converts a byte column (0-indexed) to its visual column: the first visual
/// column whose byte column is at or after `bytecol`, so that a byte column
/// inside a cluster still moves the cursor.
pub fn bytepos_to_charpos(line: &str, bytecol: usize) -> (charcol: usize)
    ensures
        charcol == spec_bytepos_to_charpos(line@, bytecol),
        offsets_well_formed(extended_grapheme_offsets(line@), str_byte_len(line@) as int),
{
    let offsets = grapheme_offsets(line);
    match find_first_at_least(&offsets, bytecol) {
        Some(i) => i,
        None => offsets.len(),
    }
}

/// Converts a visual column (0-indexed) to its byte column.
pub fn charpos_to_bytepos(line: &str, charcol: usize) -> (bytecol: usize)
    ensures
        bytecol == spec_charpos_to_bytepos(line@, str_byte_len(line@) as int, charcol),
        bytecol <= str_byte_len(line@),
        is_char_boundary_of(line@, bytecol as int),
        offsets_well_formed(extended_grapheme_offsets(line@), str_byte_len(line@) as int),
{
    let offsets = grapheme_offsets(line);
    if charcol < offsets.len() {
        offsets[charcol]
    } else {
        let len = line.as_bytes().len();
        proof {
            vstd::utf8::encode_utf8_valid_utf8(line@);
            vstd::utf8::is_char_boundary_start_end_of_seq(vstd::utf8::encode_utf8(line@));
        }
        len
    }
}

/// A byte column at which a grapheme cluster starts, or the end of the line,
/// survives the trip to a visual column and back. Stated for every list of
/// cluster offsets of the shape that segmentation yields.
pub proof fn lemma_bytepos_roundtrip(offsets: Seq<usize>, len: usize, bytecol: usize)
    requires
        offsets_well_formed(offsets, len as int),
        offsets.contains(bytecol) || bytecol == len,
    ensures
        bytepos_of(offsets, len as int, charpos_of(offsets, bytecol, offsets.len() as int))
            == bytecol,
{
    if offsets.contains(bytecol) {
        let k = choose|k: int| 0 <= k < offsets.len() && offsets[k] == bytecol;
        lemma_charpos_of_offset(offsets, len as int, k, offsets.len() as int);
    } else {
        lemma_charpos_of_end(offsets, len, offsets.len() as int);
    }
}

/// For every byte column, converting to a visual column, back to a byte
/// column and to a visual column again gives the same visual column.
pub proof fn lemma_charpos_stable(offsets: Seq<usize>, len: usize, bytecol: usize)
    requires
        offsets_well_formed(offsets, len as int),
    ensures
        ({
            let c = charpos_of(offsets, bytecol, offsets.len() as int);
            charpos_of(offsets, bytepos_of(offsets, len as int, c) as usize, offsets.len() as int)
                == c
        }),
{
    lemma_charpos_bytepos_charpos(offsets, len, bytecol, offsets.len() as int);
}

/// Converting a byte column within the line to a visual column and back
/// rounds it up to the next grapheme cluster start, or to the end of the line
/// when no cluster starts at or after it: the result is at least the byte
/// column, at most the length, a cluster start or the end, and no cluster
/// starts between the two.
pub proof fn lemma_bytepos_rounds_up(offsets: Seq<usize>, len: usize, bytecol: usize)
    requires
        offsets_well_formed(offsets, len as int),
        bytecol <= len,
    ensures
        ({
            let r = bytepos_of(offsets, len as int, charpos_of(offsets, bytecol, offsets.len() as int));
            &&& bytecol <= r <= len
            &&& (r == len || offsets.contains(r as usize))
            &&& forall|i: int| 0 <= i < offsets.len() && offsets[i] >= bytecol ==> r <= offsets[i]
        }),
{
    lemma_rounds_up(offsets, len, bytecol, offsets.len() as int);
}

/// Marks each position below the longer length where `a` and `b` differ: a
/// position present in only one of them differs.
pub open spec fn position_mismatches<T: PartialEq>(a: Seq<T>, b: Seq<T>) -> Seq<bool> {
    Seq::new(
        if a.len() >= b.len() { a.len() } else { b.len() },
        |i: int| if i < a.len() && i < b.len() { !a[i].eq_spec(&b[i]) } else { true },
    )
}

/// The smaller of two integers.
pub open spec fn min_int(x: int, y: int) -> int {
    if x <= y { x } else { y }
}

/// The smallest differing region of two sequences of lengths `len_a` and
/// `len_b`, whose positions below the longer length are marked in
/// `mismatches` where they differ, as `(start_a, end_a, start_b, end_b)` with
/// exclusive ends: from the first differing position to one past the last,
/// each capped at the sequence's length; nothing when no position differs.
pub open spec fn ranges_by_mismatches(len_a: int, len_b: int, mismatches: Seq<bool>) -> Option<(int, int, int, int)> {
    if exists|i: int| 0 <= i < mismatches.len() && mismatches[i] {
        let first = choose|i: int| is_first_marked(mismatches, i);
        let last = choose|i: int| is_last_marked(mismatches, i);
        Some((
            min_int(first, len_a),
            min_int(last + 1, len_a),
            min_int(first, len_b),
            min_int(last + 1, len_b),
        ))
    } else {
        None
    }
}

/// The smallest differing region of `a` and `b` found by comparing them index
/// by index, as `diff_ranges` computes it.
pub open spec fn spec_diff_ranges<T: PartialEq>(a: Seq<T>, b: Seq<T>) -> Option<(int, int, int, int)> {
    ranges_by_mismatches(a.len() as int, b.len() as int, position_mismatches(a, b))
}

/// Computes the differing ranges from the marks of the differing positions.
pub(crate) fn ranges_from_mismatches(len_a: usize, len_b: usize, mismatches: &Vec<bool>) -> (res: Option<(Range<usize>, Range<usize>)>)
    requires
        mismatches@.len() == if len_a >= len_b { len_a } else { len_b },
    ensures
        res is None <==> ranges_by_mismatches(len_a as int, len_b as int, mismatches@) is None,
        res matches Some((ra, rb)) ==> {
            let d = ranges_by_mismatches(len_a as int, len_b as int, mismatches@)->0;
            ra.start == d.0 && ra.end == d.1 && rb.start == d.2 && rb.end == d.3
        },
{
    match find_marked_bounds(mismatches) {
        None => None,
        Some((first, last)) => {
            proof {
                lemma_marked_bounds_chosen(mismatches@, first as int, last as int);
            }
            let start_a = if first <= len_a { first } else { len_a };
            let start_b = if first <= len_b { first } else { len_b };
            let end_a = if last + 1 <= len_a { last + 1 } else { len_a };
            let end_b = if last + 1 <= len_b { last + 1 } else { len_b };
            Some((start_a..end_a, start_b..end_b))
        },
    }
}

/// Identifies the smallest ranges of `a` and `b` that differ, comparing them
/// index by index; a position that only one of them has differs.
pub fn diff_ranges<T: PartialEq>(a: &[T], b: &[T]) -> (res: Option<(Range<usize>, Range<usize>)>)
    requires
        T::obeys_eq_spec(),
    ensures
        res is None <==> spec_diff_ranges(a@, b@) is None,
        res matches Some((ra, rb)) ==> {
            let d = spec_diff_ranges(a@, b@)->0;
            ra.start == d.0 && ra.end == d.1 && rb.start == d.2 && rb.end == d.3
        },
{
    let max_len: usize = if a.len() >= b.len() { a.len() } else { b.len() };
    let mut mismatches: Vec<bool> = Vec::new();
    let mut i: usize = 0;
    while i < max_len
        invariant
            max_len == if a@.len() >= b@.len() { a@.len() } else { b@.len() },
            i <= max_len,
            mismatches@.len() == i,
            T::obeys_eq_spec(),
            forall|j: int| 0 <= j < i ==> mismatches@[j] == position_mismatches(a@, b@)[j],
        decreases max_len - i,
    {
        let differs = if i < a.len() && i < b.len() { !(a[i] == b[i]) } else { true };
        mismatches.push(differs);
        i = i + 1;
    }
    assert(mismatches@ =~= position_mismatches(a@, b@));
    ranges_from_mismatches(a.len(), b.len(), &mismatches)
}

/// What `diff_ranges` reports separates the slices into an equal prefix, a
/// differing middle and an equal suffix: the ranges are well-formed and lie
/// within their slices; before them both slices agree; after them both have
/// the same number of elements, pairwise equal; and the two middles differ,
/// in length or in their first element. When nothing is reported, the slices
/// are equal.
pub proof fn lemma_diff_ranges_split<T: PartialEq>(a: Seq<T>, b: Seq<T>)
    ensures
        spec_diff_ranges(a, b) matches Some((start_a, end_a, start_b, end_b)) ==> {
            &&& 0 <= start_a <= end_a <= a.len()
            &&& 0 <= start_b <= end_b <= b.len()
            &&& start_a == start_b
            &&& forall|i: int| 0 <= i < start_a ==> a[i].eq_spec(&b[i])
            &&& a.len() - end_a == b.len() - end_b
            &&& forall|i: int| end_a <= i < a.len() ==> (#[trigger] a[i]).eq_spec(&b[i - end_a + end_b])
            &&& (end_a - start_a != end_b - start_b || !a[start_a].eq_spec(&b[start_b]))
        },
        spec_diff_ranges(a, b) is None ==> {
            &&& a.len() == b.len()
            &&& forall|i: int| 0 <= i < a.len() ==> a[i].eq_spec(&b[i])
        },
{
    let m = position_mismatches(a, b);
    if exists|i: int| 0 <= i < m.len() && m[i] {
        let w = choose|i: int| 0 <= i < m.len() && m[i];
        lemma_first_marked_exists(m, w);
        lemma_last_marked_exists(m, w);
        let first = choose|i: int| is_first_marked(m, i);
        let last = choose|i: int| is_last_marked(m, i);
        assert(first <= last) by {
            if last < first {
                assert(!m[last]);
            }
        }
        assert(first <= a.len() && first <= b.len()) by {
            if first > a.len() {
                assert(m[a.len() as int]);
            }
            if first > b.len() {
                assert(m[b.len() as int]);
            }
        }
        if a.len() != b.len() {
            let top = m.len() - 1;
            assert(m[top]);
            assert(last == top) by {
                if last < top {
                    assert(!m[top]);
                }
            }
        }
        assert forall|i: int| 0 <= i < first implies a[i].eq_spec(&b[i]) by {
            assert(!m[i]);
        }
        if a.len() == b.len() {
            assert forall|i: int| last + 1 <= i < a.len() implies a[i].eq_spec(&b[i]) by {
                assert(!m[i]);
            }
            assert(m[first]);
        }
    } else {
        assert forall|i: int| 0 <= i < a.len() implies a[i].eq_spec(&b[i]) by {
            assert(!m[i]);
        }
        if a.len() != b.len() {
            let top = m.len() - 1;
            assert(m[top]);
        }
    }
}

/// The ranges that `diff_ranges` reports are the smallest: both start at the
/// first position that differs (a position only one slice has differs), and
/// both slices hold an element there unless one of them ends there; when the
/// slices have the same length both ranges end one past the last position
/// that differs, which is not empty; otherwise each range runs to the end of
/// its slice.
pub proof fn lemma_diff_ranges_smallest<T: PartialEq>(a: Seq<T>, b: Seq<T>)
    ensures
        spec_diff_ranges(a, b) matches Some((start_a, end_a, start_b, end_b)) ==> {
            &&& start_a == start_b
            &&& forall|i: int| 0 <= i < start_a ==> a[i].eq_spec(&b[i])
            &&& (start_a < a.len() && start_a < b.len() ==> !a[start_a].eq_spec(&b[start_a]))
            &&& a.len() == b.len() ==> {
                &&& end_a == end_b
                &&& start_a < end_a <= a.len()
                &&& !a[end_a - 1].eq_spec(&b[end_a - 1])
                &&& forall|i: int| end_a <= i < a.len() ==> a[i].eq_spec(&b[i])
            }
            &&& a.len() != b.len() ==> end_a == a.len() && end_b == b.len()
        },
{
    lemma_diff_ranges_split(a, b);
    let m = position_mismatches(a, b);
    if exists|i: int| 0 <= i < m.len() && m[i] {
        let w = choose|i: int| 0 <= i < m.len() && m[i];
        lemma_first_marked_exists(m, w);
        lemma_last_marked_exists(m, w);
        let first = choose|i: int| is_first_marked(m, i);
        let last = choose|i: int| is_last_marked(m, i);
        assert(first <= last) by {
            if last < first {
                assert(!m[last]);
            }
        }
        assert(m[first] && m[last]);
        if a.len() != b.len() {
            let top = m.len() - 1;
            assert(m[top]);
            assert(last == top) by {
                if last < top {
                    assert(!m[top]);
                }
            }
        }
    }
}

/// With a symmetric equality, `diff_ranges` of the swapped slices reports the
/// swapped ranges.
pub proof fn lemma_diff_ranges_symmetric<T: PartialEq>(a: Seq<T>, b: Seq<T>)
    requires
        forall|x: T, y: T| #[trigger] x.eq_spec(&y) <==> y.eq_spec(&x),
    ensures
        match spec_diff_ranges(a, b) {
            Some((start_a, end_a, start_b, end_b)) => spec_diff_ranges(b, a) == Some((start_b, end_b, start_a, end_a)),
            None => spec_diff_ranges(b, a) is None,
        },
{
    let m = position_mismatches(a, b);
    assert forall|i: int| 0 <= i < m.len() implies position_mismatches(b, a)[i] == m[i] by {
        if i < a.len() && i < b.len() {
            assert(a[i].eq_spec(&b[i]) <==> b[i].eq_spec(&a[i]));
        }
    }
    assert(position_mismatches(b, a) =~= m);
}

} // verus!
