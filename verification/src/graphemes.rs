//! Grapheme-cluster boundaries and display widths, as given by the
//! `unicode-segmentation` and `unicode-width` crates, and the verified column
//! arithmetic built on top of them.

use unicode_segmentation::UnicodeSegmentation;
use unicode_width::UnicodeWidthStr;
use vstd::prelude::*;

verus! {

/// The byte offsets at which the extended grapheme clusters of a line start,
/// in the order in which `UnicodeSegmentation::grapheme_indices(line, true)`
/// yields them.
pub uninterp spec fn extended_grapheme_offsets(line: Seq<char>) -> Seq<usize>;

/// The display width of a line with ambiguous-width characters counted as
/// two columns, as `UnicodeWidthStr::width_cjk` computes it.
pub uninterp spec fn cjk_width(line: Seq<char>) -> usize;

/// The byte length of a string, as `str::len` gives it.
pub open spec fn str_byte_len(s: Seq<char>) -> usize {
    vstd::utf8::encode_utf8(s).len() as usize
}

/// `index` is a character boundary of the UTF-8 encoding of `line`.
pub open spec fn is_char_boundary_of(line: Seq<char>, index: int) -> bool {
    vstd::utf8::is_char_boundary(vstd::utf8::encode_utf8(line), index)
}

/// What every list of grapheme start offsets of a line of `len` bytes looks
/// like: strictly increasing, below `len`, starting at 0, and empty exactly
/// when the line is.
pub open spec fn offsets_well_formed(offsets: Seq<usize>, len: int) -> bool {
    &&& forall|i: int, j: int| 0 <= i < j < offsets.len() ==> offsets[i] < offsets[j]
    &&& forall|i: int| 0 <= i < offsets.len() ==> offsets[i] < len
    &&& offsets.len() > 0 ==> offsets[0] == 0
    &&& (offsets.len() == 0 <==> len == 0)
}

/// Calls `UnicodeSegmentation::grapheme_indices(line, true)` and keeps the
/// byte offset of each cluster. Trusted: the offsets are the named
/// `extended_grapheme_offsets` of the line; as the crate's iterator hands out
/// consecutive slices `line[start..next]` from offset 0 up to `line.len()`,
/// they are strictly increasing, start at 0, stay below the byte length,
/// each is a character boundary of the line, and there is none exactly when
/// the line is empty.
#[verifier::external_body]
pub(crate) fn grapheme_offsets(line: &str) -> (offsets: Vec<usize>)
    ensures
        offsets@ == extended_grapheme_offsets(line@),
        offsets_well_formed(offsets@, str_byte_len(line@) as int),
        forall|i: int| 0 <= i < offsets@.len() ==> is_char_boundary_of(line@, #[trigger] offsets@[i] as int),
{
    line.grapheme_indices(true).map(|(i, _)| i).collect()
}

/// Calls `UnicodeWidthStr::width_cjk`. Trusted: the result is the named
/// `cjk_width` of the line; nothing more is stated of it.
#[verifier::external_body]
pub(crate) fn display_width_cjk(line: &str) -> (width: usize)
    ensures
        width == cjk_width(line@),
{
    line.width_cjk()
}

/// `i` is the first index whose offset is at least `bound`.
pub open spec fn is_first_at_least(offsets: Seq<usize>, bound: usize, i: int) -> bool {
    &&& 0 <= i < offsets.len()
    &&& offsets[i] >= bound
    &&& forall|j: int| 0 <= j < i ==> offsets[j] < bound
}

/// The first index whose offset is at least `bound`, if there is one.
pub open spec fn first_at_least(offsets: Seq<usize>, bound: usize) -> Option<int> {
    if exists|i: int| is_first_at_least(offsets, bound, i) {
        Some(choose|i: int| is_first_at_least(offsets, bound, i))
    } else {
        None
    }
}

/// The visual column of byte column `bytecol`: the index of the first
/// grapheme that starts at or after it, or `fallback` when none does.
pub open spec fn charpos_of(offsets: Seq<usize>, bytecol: usize, fallback: int) -> int {
    match first_at_least(offsets, bytecol) {
        Some(i) => i,
        None => fallback,
    }
}

/// The byte column of visual column `charcol`: where grapheme `charcol`
/// starts, or the byte length `len` when there are not that many graphemes.
pub open spec fn bytepos_of(offsets: Seq<usize>, len: int, charcol: int) -> int {
    if 0 <= charcol < offsets.len() {
        offsets[charcol] as int
    } else {
        len
    }
}

/// Finds the first offset that is at least `bound`.
pub(crate) fn find_first_at_least(offsets: &Vec<usize>, bound: usize) -> (res: Option<usize>)
    ensures
        match res {
            Some(i) => first_at_least(offsets@, bound) == Some(i as int),
            None => first_at_least(offsets@, bound) is None,
        },
{
    let mut i: usize = 0;
    while i < offsets.len()
        invariant
            i <= offsets.len(),
            forall|j: int| 0 <= j < i ==> offsets@[j] < bound,
        decreases offsets.len() - i,
    {
        if offsets[i] >= bound {
            assert(is_first_at_least(offsets@, bound, i as int));
            assert forall|k: int| is_first_at_least(offsets@, bound, k) implies k == i by {
                if k < i {
                    assert(offsets@[k] < bound);
                } else if k > i {
                    assert(offsets@[i as int] < bound);
                }
            }
            return Some(i);
        }
        i = i + 1;
    }
    assert forall|k: int| !is_first_at_least(offsets@, bound, k) by {
        if 0 <= k < offsets@.len() {
            assert(offsets@[k] < bound);
        }
    }
    None
}

/// A grapheme's own start offset maps back to that grapheme's index.
pub proof fn lemma_charpos_of_offset(offsets: Seq<usize>, len: int, i: int, fallback: int)
    requires
        offsets_well_formed(offsets, len),
        0 <= i < offsets.len(),
    ensures
        charpos_of(offsets, offsets[i], fallback) == i,
{
    assert(is_first_at_least(offsets, offsets[i], i));
    let k = choose|k: int| is_first_at_least(offsets, offsets[i], k);
    if k < i {
        assert(offsets[k] < offsets[i]);
    } else if k > i {
        assert(offsets[i] < offsets[i]);
    }
}

/// No grapheme starts at or after the end of the line, so the end maps to the
/// fallback column.
pub proof fn lemma_charpos_of_end(offsets: Seq<usize>, len: usize, fallback: int)
    requires
        offsets_well_formed(offsets, len as int),
    ensures
        charpos_of(offsets, len, fallback) == fallback,
{
    assert forall|k: int| !is_first_at_least(offsets, len, k) by {
        if 0 <= k < offsets.len() {
            assert(offsets[k] < len);
        }
    }
}

/// Whatever the fallback, mapping a byte column to a visual column, that
/// column back to a byte column, and that byte column to a visual column
/// again gives the first visual column.
pub proof fn lemma_charpos_bytepos_charpos(offsets: Seq<usize>, len: usize, bytecol: usize, fallback: int)
    requires
        offsets_well_formed(offsets, len as int),
    ensures
        ({
            let c = charpos_of(offsets, bytecol, fallback);
            charpos_of(offsets, bytepos_of(offsets, len as int, c) as usize, fallback) == c
        }),
{
    let c = charpos_of(offsets, bytecol, fallback);
    if 0 <= c < offsets.len() {
        lemma_charpos_of_offset(offsets, len as int, c, fallback);
    } else {
        lemma_charpos_of_end(offsets, len, fallback);
    }
}

/// Mapping a byte column to a visual column and back rounds it up to the
/// next cluster start, or gives the end of the line when no cluster starts at
/// or after it and the fallback is past the last cluster.
pub proof fn lemma_rounds_up(offsets: Seq<usize>, len: usize, bytecol: usize, fallback: int)
    requires
        offsets_well_formed(offsets, len as int),
        bytecol <= len,
        fallback >= offsets.len() || exists|i: int| 0 <= i < offsets.len() && offsets[i] >= bytecol,
    ensures
        ({
            let r = bytepos_of(offsets, len as int, charpos_of(offsets, bytecol, fallback));
            &&& bytecol <= r <= len
            &&& (r == len || offsets.contains(r as usize))
            &&& forall|i: int| 0 <= i < offsets.len() && offsets[i] >= bytecol ==> r <= offsets[i]
        }),
{
    if exists|i: int| is_first_at_least(offsets, bytecol, i) {
        let k = choose|i: int| is_first_at_least(offsets, bytecol, i);
        assert(offsets.contains(offsets[k]));
        assert forall|i: int| 0 <= i < offsets.len() && offsets[i] >= bytecol implies offsets[k] <= offsets[i] by {
            if i < k {
                assert(offsets[i] < bytecol);
            }
        }
    } else {
        assert forall|i: int| 0 <= i < offsets.len() implies offsets[i] < bytecol by {
            if offsets[i] >= bytecol {
                lemma_first_exists(offsets, bytecol, i);
            }
        }
    }
}

/// An offset at least `bound` implies a first such offset.
proof fn lemma_first_exists(offsets: Seq<usize>, bound: usize, i: int)
    requires
        0 <= i < offsets.len(),
        offsets[i] >= bound,
    ensures
        exists|k: int| is_first_at_least(offsets, bound, k),
    decreases i,
{
    if exists|j: int| 0 <= j < i && offsets[j] >= bound {
        let j = choose|j: int| 0 <= j < i && offsets[j] >= bound;
        lemma_first_exists(offsets, bound, j);
    } else {
        assert(is_first_at_least(offsets, bound, i));
    }
}

} // verus!
