//! Conversions between byte columns and visual columns, where a byte column
//! past the last grapheme cluster maps to the display width of the line, and
//! the differing region of two slices.

use vstd::prelude::*;
use vstd::std_specs::cmp::PartialEqSpec;
use crate::text::views_of;
use crate::graphemes::{
    lemma_rounds_up,
    bytepos_of, charpos_of, cjk_width, display_width_cjk, extended_grapheme_offsets,
    find_first_at_least, grapheme_offsets, lemma_charpos_bytepos_charpos, lemma_charpos_of_end,
    lemma_charpos_of_offset, offsets_well_formed, str_byte_len, is_char_boundary_of,
};

verus! {

/// The visual column of byte column `bytecol` in `line`: the index of the
/// first grapheme cluster that starts at or after `bytecol`, or the CJK
/// display width of the line when none does.
pub open spec fn spec_bytepos_to_charpos(line: Seq<char>, bytecol: usize) -> int {
    charpos_of(extended_grapheme_offsets(line), bytecol, cjk_width(line) as int)
}

/// The byte column of visual column `charcol` in `line`: where grapheme
/// cluster `charcol` starts, or the byte length `len` past the last one.
pub open spec fn spec_charpos_to_bytepos(line: Seq<char>, len: int, charcol: usize) -> int {
    bytepos_of(extended_grapheme_offsets(line), len, charcol as int)
}

/// Converts a byte column (0-indexed) to its visual column: the first visual
/// column whose byte column is at or after `bytecol`, so that a byte column
/// inside a cluster still moves the cursor.
pub fn bytepos_to_charpos(line: &str, bytecol: usize) -> (charcol: usize)
    ensures
        charcol == spec_bytepos_to_charpos(line@, bytecol),
        offsets_well_formed(extended_grapheme_offsets(line@), str_byte_len(line@) as int),
{
    let offsets = grapheme_offsets(line);
    match find_first_at_least(&offsets, bytecol) {
        Some(i) => i,
        None => display_width_cjk(line),
    }
}

/// Converts a visual column (0-indexed) to its byte column.
pub fn charpos_to_bytepos(line: &str, charcol: usize) -> (bytecol: usize)
    ensures
        bytecol == spec_charpos_to_bytepos(line@, str_byte_len(line@) as int, charcol),
        bytecol <= str_byte_len(line@),
        is_char_boundary_of(line@, bytecol as int),
        offsets_well_formed(extended_grapheme_offsets(line@), str_byte_len(line@) as int),
{
    let offsets = grapheme_offsets(line);
    if charcol < offsets.len() {
        offsets[charcol]
    } else {
        let len = line.as_bytes().len();
        proof {
            vstd::utf8::encode_utf8_valid_utf8(line@);
            vstd::utf8::is_char_boundary_start_end_of_seq(vstd::utf8::encode_utf8(line@));
        }
        len
    }
}

/// A byte column at which a grapheme cluster starts survives the trip to a
/// visual column and back; so does the end of the line, when the display
/// width is at least the number of clusters.
pub proof fn lemma_bytepos_roundtrip(offsets: Seq<usize>, len: usize, width: usize, bytecol: usize)
    requires
        offsets_well_formed(offsets, len as int),
        offsets.contains(bytecol) || (bytecol == len && width >= offsets.len()),
    ensures
        bytepos_of(offsets, len as int, charpos_of(offsets, bytecol, width as int)) == bytecol,
{
    if offsets.contains(bytecol) {
        let k = choose|k: int| 0 <= k < offsets.len() && offsets[k] == bytecol;
        lemma_charpos_of_offset(offsets, len as int, k, width as int);
    } else {
        lemma_charpos_of_end(offsets, len, width as int);
    }
}

/// For every byte column, converting to a visual column, back to a byte
/// column and to a visual column again gives the same visual column.
pub proof fn lemma_charpos_stable(offsets: Seq<usize>, len: usize, width: usize, bytecol: usize)
    requires
        offsets_well_formed(offsets, len as int),
    ensures
        ({
            let c = charpos_of(offsets, bytecol, width as int);
            charpos_of(offsets, bytepos_of(offsets, len as int, c) as usize, width as int) == c
        }),
{
    lemma_charpos_bytepos_charpos(offsets, len, bytecol, width as int);
}

/// `i` is the first position marked in `marks`.
pub open spec fn is_first_marked(marks: Seq<bool>, i: int) -> bool {
    &&& 0 <= i < marks.len()
    &&& marks[i]
    &&& forall|j: int| 0 <= j < i ==> !marks[j]
}

/// `i` is the last position marked in `marks`.
pub open spec fn is_last_marked(marks: Seq<bool>, i: int) -> bool {
    &&& 0 <= i < marks.len()
    &&& marks[i]
    &&& forall|j: int| i < j < marks.len() ==> !marks[j]
}

/// The index of the last element of a sequence of length `n`, or 0 when it is
/// empty.
pub open spec fn last_index_or_zero(n: nat) -> usize {
    if n == 0 {
        0
    } else {
        (n - 1) as usize
    }
}

/// The differing region of two sequences of lengths `len_a` and `len_b` whose
/// common positions are marked in `mismatches` where their elements differ:
/// the first and the last differing common position, for both sides, when a
/// common position differs; otherwise nothing when the lengths are equal, and
/// when they are not, the region from the shorter length to the last index of
/// each side (so that the shorter side's part is empty, ending one below its
/// start, and a side that is empty reports `[0, 0]`).
pub open spec fn diff_by_mismatches(len_a: nat, len_b: nat, mismatches: Seq<bool>) -> Option<Seq<usize>> {
    if exists|i: int| 0 <= i < mismatches.len() && mismatches[i] {
        let first = (choose|i: int| is_first_marked(mismatches, i)) as usize;
        let last = (choose|i: int| is_last_marked(mismatches, i)) as usize;
        Some(seq![first, last, first, last])
    } else if len_a == len_b {
        None
    } else {
        let shorter = (if len_a <= len_b { len_a } else { len_b }) as usize;
        Some(seq![shorter, last_index_or_zero(len_a), shorter, last_index_or_zero(len_b)])
    }
}

/// Marks each position that `a` and `b` share where their elements differ.
pub open spec fn element_mismatches<T: PartialEq>(a: Seq<T>, b: Seq<T>) -> Seq<bool> {
    Seq::new(
        if a.len() <= b.len() { a.len() } else { b.len() },
        |i: int| !a[i].eq_spec(&b[i]),
    )
}

/// The differing region of `a` and `b`, as `diff_slice` computes it.
pub open spec fn spec_diff_slice<T: PartialEq>(a: Seq<T>, b: Seq<T>) -> Option<Seq<usize>> {
    diff_by_mismatches(a.len(), b.len(), element_mismatches(a, b))
}

/// Finds the first and the last marked position: the last is searched from
/// the back, then the first from the front.
pub(crate) fn find_marked_bounds(marks: &Vec<bool>) -> (res: Option<(usize, usize)>)
    ensures
        res is None <==> !(exists|i: int| 0 <= i < marks@.len() && marks@[i]),
        res matches Some((first, last)) ==> is_first_marked(marks@, first as int) && is_last_marked(marks@, last as int),
{
    let n = marks.len();
    let mut k: usize = n;
    while k > 0 && !marks[k - 1]
        invariant
            k <= n,
            n == marks@.len(),
            forall|j: int| k <= j < n ==> !marks@[j],
        decreases k,
    {
        k = k - 1;
    }
    if k == 0 {
        return None;
    }
    let last = k - 1;
    let mut first: usize = 0;
    while first < last && !marks[first]
        invariant
            first <= last,
            last < n,
            n == marks@.len(),
            marks@[last as int],
            forall|j: int| 0 <= j < first ==> !marks@[j],
        decreases last - first,
    {
        first = first + 1;
    }
    Some((first, last))
}

/// Computes the differing region from the marks of the differing common
/// positions.
pub(crate) fn diff_from_mismatches(len_a: usize, len_b: usize, mismatches: &Vec<bool>) -> (res: Option<[usize; 4]>)
    requires
        mismatches.len() == if len_a <= len_b { len_a } else { len_b },
    ensures
        res is None <==> diff_by_mismatches(len_a as nat, len_b as nat, mismatches@) is None,
        res matches Some(d) ==> d@ == diff_by_mismatches(len_a as nat, len_b as nat, mismatches@)->0,
{
    match find_marked_bounds(mismatches) {
        Some((first, last)) => {
            proof {
                lemma_marked_bounds_chosen(mismatches@, first as int, last as int);
            }
            let d = [first, last, first, last];
            assert(d@ =~= seq![first, last, first, last]);
            Some(d)
        },
        None => {
            if len_a == len_b {
                None
            } else {
                let shorter = mismatches.len();
                let end_a: usize = if len_a == 0 { 0 } else { len_a - 1 };
                let end_b: usize = if len_b == 0 { 0 } else { len_b - 1 };
                let d = [shorter, end_a, shorter, end_b];
                assert(d@ =~= seq![shorter, last_index_or_zero(len_a as nat), shorter, last_index_or_zero(len_b as nat)]);
                Some(d)
            }
        },
    }
}

/// Converts two slices `a` and `b` to their differing ranges as
/// `[start_a, end_a, start_b, end_b]`, where `a[start_a..=end_a]` is the part
/// of `a` that differs from `b` and `b[start_b..=end_b]` the part of `b` that
/// differs from `a`. When the shared positions agree but the lengths do not,
/// the region starts at the shorter length and runs to the end of each slice,
/// so that the shorter slice's part is empty; when exactly one slice is empty
/// the whole of the other is reported. `None` comes exactly for equal slices.
pub fn diff_slice<T: PartialEq>(a: &[T], b: &[T]) -> (res: Option<[usize; 4]>)
    requires
        T::obeys_eq_spec(),
    ensures
        res is None <==> spec_diff_slice(a@, b@) is None,
        res matches Some(d) ==> d@ == spec_diff_slice(a@, b@)->0,
{
    let n: usize = if a.len() <= b.len() { a.len() } else { b.len() };
    let mut mismatches: Vec<bool> = Vec::new();
    let mut i: usize = 0;
    while i < n
        invariant
            n == if a@.len() <= b@.len() { a@.len() } else { b@.len() },
            i <= n,
            mismatches@.len() == i,
            T::obeys_eq_spec(),
            forall|j: int| 0 <= j < i ==> mismatches@[j] == !a@[j].eq_spec(&b@[j]),
        decreases n - i,
    {
        let same = a[i] == b[i];
        mismatches.push(!same);
        i = i + 1;
    }
    assert(mismatches@ =~= element_mismatches(a@, b@));
    diff_from_mismatches(a.len(), b.len(), &mismatches)
}

/// The first and the last marked position are the ones that `choose` picks.
pub(crate) proof fn lemma_marked_bounds_chosen(marks: Seq<bool>, first: int, last: int)
    requires
        is_first_marked(marks, first),
        is_last_marked(marks, last),
    ensures
        (choose|i: int| is_first_marked(marks, i)) == first,
        (choose|i: int| is_last_marked(marks, i)) == last,
{
    let chosen_first = choose|i: int| is_first_marked(marks, i);
    let chosen_last = choose|i: int| is_last_marked(marks, i);
    if chosen_first < first {
        assert(!marks[chosen_first]);
    } else if chosen_first > first {
        assert(!marks[first]);
    }
    if chosen_last < last {
        assert(!marks[last]);
    } else if chosen_last > last {
        assert(!marks[chosen_last]);
    }
}

/// Marks each line position that two buffers share where their lines differ.
pub open spec fn line_mismatches(a: Seq<Seq<char>>, b: Seq<Seq<char>>) -> Seq<bool> {
    Seq::new(if a.len() <= b.len() { a.len() } else { b.len() }, |i: int| a[i] != b[i])
}

/// The differing region of two buffers' lines, as `diff_slice` computes it
/// for their lines.
pub open spec fn spec_diff_lines(a: Seq<Seq<char>>, b: Seq<Seq<char>>) -> Option<Seq<usize>> {
    diff_by_mismatches(a.len(), b.len(), line_mismatches(a, b))
}

/// The differing region of two buffers' lines, compared by their text.
pub fn diff_lines(a: &[String], b: &[String]) -> (res: Option<[usize; 4]>)
    ensures
        res is None <==> spec_diff_lines(views_of(a@), views_of(b@)) is None,
        res matches Some(d) ==> d@ == spec_diff_lines(views_of(a@), views_of(b@))->0,
{
    let n: usize = if a.len() <= b.len() { a.len() } else { b.len() };
    let ghost expected = line_mismatches(views_of(a@), views_of(b@));
    let mut mismatches: Vec<bool> = Vec::new();
    let mut i: usize = 0;
    while i < n
        invariant
            n == expected.len(),
            expected == line_mismatches(views_of(a@), views_of(b@)),
            i <= n,
            mismatches@.len() == i,
            forall|j: int| 0 <= j < i ==> mismatches@[j] == expected[j],
        decreases n - i,
    {
        let same = a[i] == b[i];
        mismatches.push(!same);
        i = i + 1;
    }
    assert(mismatches@ =~= expected);
    diff_from_mismatches(a.len(), b.len(), &mismatches)
}

/// Converting a byte column within the line to a visual column and back
/// rounds it up to the next grapheme cluster start, or to the end of the line
/// when no cluster starts at or after it. Left out: byte columns past every
/// cluster start when the display width is below the number of clusters,
/// where the way back lands on the cluster at the width instead.
pub proof fn lemma_bytepos_rounds_up(offsets: Seq<usize>, len: usize, width: usize, bytecol: usize)
    requires
        offsets_well_formed(offsets, len as int),
        bytecol <= len,
        width >= offsets.len() || exists|i: int| 0 <= i < offsets.len() && offsets[i] >= bytecol,
    ensures
        ({
            let r = bytepos_of(offsets, len as int, charpos_of(offsets, bytecol, width as int));
            &&& bytecol <= r <= len
            &&& (r == len || offsets.contains(r as usize))
            &&& forall|i: int| 0 <= i < offsets.len() && offsets[i] >= bytecol ==> r <= offsets[i]
        }),
{
    lemma_rounds_up(offsets, len, bytecol, width as int);
}

/// A marked position implies a first marked position.
pub(crate) proof fn lemma_first_marked_exists(marks: Seq<bool>, i: int)
    requires
        0 <= i < marks.len(),
        marks[i],
    ensures
        exists|k: int| is_first_marked(marks, k),
    decreases i,
{
    if exists|j: int| 0 <= j < i && marks[j] {
        let j = choose|j: int| 0 <= j < i && marks[j];
        lemma_first_marked_exists(marks, j);
    } else {
        assert(is_first_marked(marks, i));
    }
}

/// A marked position implies a last marked position.
pub(crate) proof fn lemma_last_marked_exists(marks: Seq<bool>, i: int)
    requires
        0 <= i < marks.len(),
        marks[i],
    ensures
        exists|k: int| is_last_marked(marks, k),
    decreases marks.len() - i,
{
    if exists|j: int| i < j < marks.len() && marks[j] {
        let j = choose|j: int| i < j < marks.len() && marks[j];
        lemma_last_marked_exists(marks, j);
    } else {
        assert(is_last_marked(marks, i));
    }
}

/// Where `diff_slice` reports a region `[start_a, end_a, start_b, end_b]`,
/// it starts at the same index in both slices, within each of them, no later
/// than one past where it ends (one past only for a side whose part is empty),
/// it ends within each non-empty slice, everything before it is the same in
/// both, and no common position after it differs.
pub proof fn lemma_diff_slice_region<T: PartialEq>(a: Seq<T>, b: Seq<T>)
    requires
        a.len() <= usize::MAX,
        b.len() <= usize::MAX,
        spec_diff_slice(a, b) is Some,
    ensures
        ({
            let d = spec_diff_slice(a, b)->0;
            &&& d.len() == 4
            &&& d[0] == d[2]
            &&& d[0] <= a.len() && d[2] <= b.len()
            &&& d[0] <= d[1] + 1
            &&& d[2] <= d[3] + 1
            &&& a.len() > 0 ==> d[1] < a.len()
            &&& b.len() > 0 ==> d[3] < b.len()
            &&& forall|i: int| 0 <= i < d[0] ==> a[i].eq_spec(&b[i])
            &&& forall|i: int| d[1] < i < a.len() && i < b.len() ==> a[i].eq_spec(&b[i])
        }),
{
    let m = element_mismatches(a, b);
    if exists|i: int| 0 <= i < m.len() && m[i] {
        let w = choose|i: int| 0 <= i < m.len() && m[i];
        lemma_first_marked_exists(m, w);
        lemma_last_marked_exists(m, w);
        let first = choose|i: int| is_first_marked(m, i);
        let last = choose|i: int| is_last_marked(m, i);
        assert(first <= last) by {
            if last < first {
                assert(!m[last]);
            }
        }
        assert forall|i: int| 0 <= i < first implies a[i].eq_spec(&b[i]) by {
            assert(!m[i]);
        }
        assert forall|i: int| last < i < a.len() && i < b.len() implies a[i].eq_spec(&b[i]) by {
            assert(!m[i]);
        }
    } else {
        assert forall|i: int| 0 <= i < a.len() && i < b.len() implies a[i].eq_spec(&b[i]) by {
            assert(!m[i]);
        }
    }
}

/// `diff_slice` reports no difference exactly when the slices have the same
/// length and equal elements.
pub proof fn lemma_diff_slice_none_iff_equal<T: PartialEq>(a: Seq<T>, b: Seq<T>)
    ensures
        spec_diff_slice(a, b) is None <==> {
            &&& a.len() == b.len()
            &&& forall|i: int| 0 <= i < a.len() ==> a[i].eq_spec(&b[i])
        },
{
    let m = element_mismatches(a, b);
    if spec_diff_slice(a, b) is None {
        assert forall|i: int| 0 <= i < a.len() implies a[i].eq_spec(&b[i]) by {
            assert(!m[i]);
        }
    }
    if a.len() == b.len() && forall|i: int| 0 <= i < a.len() ==> a[i].eq_spec(&b[i]) {
        assert forall|i: int| 0 <= i < m.len() implies !m[i] by {}
    }
}

/// The region that `diff_slice` reports is the smallest one. When some shared
/// position differs, it runs from the first to the last differing shared
/// position, the same on both sides, and both ends differ; every shared
/// position outside it is equal. When no shared position differs but the
/// lengths do, it starts at the shorter length and ends at the last index of
/// each slice (0 for an empty one).
pub proof fn lemma_diff_slice_smallest<T: PartialEq>(a: Seq<T>, b: Seq<T>)
    requires
        a.len() <= usize::MAX,
        b.len() <= usize::MAX,
    ensures
        spec_diff_slice(a, b) matches Some(d) ==> {
            &&& d.len() == 4
            &&& (exists|i: int| 0 <= i < a.len() && i < b.len() && !(#[trigger] a[i]).eq_spec(&b[i])) ==> {
                &&& d[0] == d[2] && d[1] == d[3]
                &&& d[0] <= d[1] && d[1] < a.len() && d[1] < b.len()
                &&& !a[d[0] as int].eq_spec(&b[d[0] as int])
                &&& !a[d[1] as int].eq_spec(&b[d[1] as int])
                &&& forall|j: int| 0 <= j < d[0] ==> a[j].eq_spec(&b[j])
                &&& forall|j: int| d[1] < j < a.len() && j < b.len() ==> a[j].eq_spec(&b[j])
            }
            &&& !(exists|i: int| 0 <= i < a.len() && i < b.len() && !(#[trigger] a[i]).eq_spec(&b[i])) ==> {
                &&& a.len() != b.len()
                &&& d[0] == d[2]
                &&& d[0] == (if a.len() <= b.len() { a.len() } else { b.len() })
                &&& d[1] == (if a.len() > 0 { a.len() - 1 } else { 0 })
                &&& d[3] == (if b.len() > 0 { b.len() - 1 } else { 0 })
            }
        },
{
    let m = element_mismatches(a, b);
    if exists|i: int| 0 <= i < a.len() && i < b.len() && !(#[trigger] a[i]).eq_spec(&b[i]) {
        let w = choose|i: int| 0 <= i < a.len() && i < b.len() && !(#[trigger] a[i]).eq_spec(&b[i]);
        assert(m[w]);
        lemma_first_marked_exists(m, w);
        lemma_last_marked_exists(m, w);
        let first = choose|i: int| is_first_marked(m, i);
        let last = choose|i: int| is_last_marked(m, i);
        assert(first <= last) by {
            if last < first {
                assert(!m[last]);
            }
        }
        assert(m[first] && m[last]);
        assert forall|j: int| 0 <= j < first implies a[j].eq_spec(&b[j]) by {
            assert(!m[j]);
        }
        assert forall|j: int| last < j < a.len() && j < b.len() implies a[j].eq_spec(&b[j]) by {
            assert(!m[j]);
        }
    } else {
        assert forall|i: int| 0 <= i < m.len() implies !m[i] by {
            if m[i] {
                assert(!a[i].eq_spec(&b[i]));
            }
        }
    }
}

/// The region that `diff_lines` reports is the smallest one: from the first
/// to the last differing shared line, both of which differ, when some shared
/// line differs; otherwise, when the line counts differ, from the shorter
/// count to the last index of each buffer (0 for an empty one).
pub proof fn lemma_diff_lines_smallest(a: Seq<Seq<char>>, b: Seq<Seq<char>>)
    requires
        a.len() <= usize::MAX,
        b.len() <= usize::MAX,
    ensures
        spec_diff_lines(a, b) matches Some(d) ==> {
            &&& d.len() == 4
            &&& (exists|i: int| 0 <= i < a.len() && i < b.len() && #[trigger] a[i] != b[i]) ==> {
                &&& d[0] == d[2] && d[1] == d[3]
                &&& d[0] <= d[1] && d[1] < a.len() && d[1] < b.len()
                &&& a[d[0] as int] != b[d[0] as int]
                &&& a[d[1] as int] != b[d[1] as int]
                &&& forall|j: int| 0 <= j < d[0] ==> a[j] == b[j]
                &&& forall|j: int| d[1] < j < a.len() && j < b.len() ==> a[j] == b[j]
            }
            &&& !(exists|i: int| 0 <= i < a.len() && i < b.len() && #[trigger] a[i] != b[i]) ==> {
                &&& a.len() != b.len()
                &&& d[0] == d[2]
                &&& d[0] == (if a.len() <= b.len() { a.len() } else { b.len() })
                &&& d[1] == (if a.len() > 0 { a.len() - 1 } else { 0 })
                &&& d[3] == (if b.len() > 0 { b.len() - 1 } else { 0 })
            }
        },
{
    let m = line_mismatches(a, b);
    if exists|i: int| 0 <= i < a.len() && i < b.len() && #[trigger] a[i] != b[i] {
        let w = choose|i: int| 0 <= i < a.len() && i < b.len() && #[trigger] a[i] != b[i];
        assert(m[w]);
        lemma_first_marked_exists(m, w);
        lemma_last_marked_exists(m, w);
        let first = choose|i: int| is_first_marked(m, i);
        let last = choose|i: int| is_last_marked(m, i);
        assert(first <= last) by {
            if last < first {
                assert(!m[last]);
            }
        }
        assert(m[first] && m[last]);
        assert forall|j: int| 0 <= j < first implies a[j] == b[j] by {
            assert(!m[j]);
        }
        assert forall|j: int| last < j < a.len() && j < b.len() implies a[j] == b[j] by {
            assert(!m[j]);
        }
    } else {
        assert forall|i: int| 0 <= i < m.len() implies !m[i] by {
            if m[i] {
                assert(a[i] != b[i]);
            }
        }
        if a.len() == b.len() {
            assert(a =~= b);
        }
    }
}

/// `diff_lines` reports no difference exactly when the two buffers have the
/// same lines.
pub proof fn lemma_diff_lines_none_iff_equal(a: Seq<Seq<char>>, b: Seq<Seq<char>>)
    ensures
        spec_diff_lines(a, b) is None <==> a == b,
{
    let m = line_mismatches(a, b);
    if spec_diff_lines(a, b) is None {
        assert forall|i: int| 0 <= i < a.len() implies a[i] == b[i] by {
            assert(!m[i]);
        }
        assert(a =~= b);
    }
    if a == b {
        assert forall|i: int| 0 <= i < m.len() implies !m[i] by {}
    }
}

} // verus!
