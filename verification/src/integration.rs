//! What the Lua entry points compute: shifting an indentation to the next
//! tab stop, the request for a run and the reply made of its answer, and the
//! conversion of cursors between the editor and parinfer.

use vstd::prelude::*;
use crate::conversion::{bytepos_to_charpos, charpos_to_bytepos, spec_bytepos_to_charpos, spec_charpos_to_bytepos};
use crate::graphemes::str_byte_len;
use crate::dialect::{dialect_options, has_dialect_syntax};
use crate::position::{ranges_by_mismatches, ranges_from_mismatches};
use crate::conversion::{is_first_marked, is_last_marked, lemma_first_marked_exists, lemma_last_marked_exists};
use crate::text::{join_lines, join_lines_spec, split_lines, split_lines_spec, string_from_chars, views_of};
use crate::types::{Answer, Error, Request};

verus! {

/// Which way an indentation moves.
#[derive(PartialEq, Eq, Structural)]
pub enum Direction {
    Forward,
    Backward,
}

impl Direction {
    /// The direction of a step: backward for a negative step, forward for any
    /// other step and when there is no step.
    pub fn from_step(step: Option<i32>) -> (dir: Direction)
        ensures
            dir == (if step matches Some(i) && i < 0 { Direction::Backward } else { Direction::Forward }),
    {
        match step {
            Some(i) if i < 0 => Direction::Backward,
            _ => Direction::Forward,
        }
    }
}

/// `t` is a tab column right of `x` and no tab column lies between `x` and it.
pub open spec fn is_nearest_right(tabs: Seq<usize>, x: usize, t: int) -> bool {
    &&& exists|i: int| 0 <= i < tabs.len() && tabs[i] == t
    &&& t > x
    &&& forall|i: int| 0 <= i < tabs.len() && tabs[i] > x ==> t <= tabs[i]
}

/// `t` is a tab column left of `x` and no tab column lies between it and `x`.
pub open spec fn is_nearest_left(tabs: Seq<usize>, x: usize, t: int) -> bool {
    &&& exists|i: int| 0 <= i < tabs.len() && tabs[i] == t
    &&& t < x
    &&& forall|i: int| 0 <= i < tabs.len() && tabs[i] < x ==> tabs[i] <= t
}

/// Where an indentation at column `x` moves: forward, to the nearest tab
/// column right of it, or two columns right (at most to `usize::MAX`) when
/// there is none; backward, to the nearest tab column left of it, or two
/// columns left (at least to 0) when there is none.
pub open spec fn shifted_column(tabs: Seq<usize>, x: usize, dir: Direction) -> int {
    if dir == Direction::Forward {
        if exists|t: int| is_nearest_right(tabs, x, t) {
            choose|t: int| is_nearest_right(tabs, x, t)
        } else if x + 2 <= usize::MAX {
            x + 2
        } else {
            usize::MAX as int
        }
    } else {
        if exists|t: int| is_nearest_left(tabs, x, t) {
            choose|t: int| is_nearest_left(tabs, x, t)
        } else if x >= 2 {
            x - 2
        } else {
            0
        }
    }
}

/// Moves column `x` to the next tab column in direction `dir`.
pub(crate) fn shift_to_tab(tabs: &Vec<usize>, dir: &Direction, x: usize) -> (column: usize)
    ensures
        column == shifted_column(tabs@, x, *dir),
{
    let forward = match dir {
        Direction::Forward => true,
        Direction::Backward => false,
    };
    let mut best: Option<usize> = None;
    let mut i: usize = 0;
    while i < tabs.len()
        invariant
            i <= tabs@.len(),
            forward == (*dir == Direction::Forward),
            best matches Some(t) ==> {
                &&& exists|k: int| 0 <= k < i && tabs@[k] == t
                &&& forward ==> t > x
                &&& !forward ==> t < x
            },
            forall|k: int| 0 <= k < i && forward && tabs@[k] > x ==> (best matches Some(t) && t <= tabs@[k]),
            forall|k: int| 0 <= k < i && !forward && tabs@[k] < x ==> (best matches Some(t) && tabs@[k] <= t),
        decreases tabs@.len() - i,
    {
        let t = tabs[i];
        if forward && t > x {
            match best {
                Some(b) if b <= t => {},
                _ => best = Some(t),
            }
        } else if !forward && t < x {
            match best {
                Some(b) if b >= t => {},
                _ => best = Some(t),
            }
        }
        i = i + 1;
    }
    match best {
        Some(t) => {
            if forward {
                assert(is_nearest_right(tabs@, x, t as int));
                let ghost c = choose|c: int| is_nearest_right(tabs@, x, c);
                assert(c == t) by {
                    let kc = choose|k: int| 0 <= k < tabs@.len() && tabs@[k] == c;
                    let kt = choose|k: int| 0 <= k < tabs@.len() && tabs@[k] == t;
                    assert(c <= tabs@[kt]);
                    assert(t <= tabs@[kc]);
                }
            } else {
                assert(is_nearest_left(tabs@, x, t as int));
                let ghost c = choose|c: int| is_nearest_left(tabs@, x, c);
                assert(c == t) by {
                    let kc = choose|k: int| 0 <= k < tabs@.len() && tabs@[k] == c;
                    let kt = choose|k: int| 0 <= k < tabs@.len() && tabs@[k] == t;
                    assert(tabs@[kt] <= c);
                    assert(tabs@[kc] <= t);
                }
            }
            t
        },
        None => {
            if forward {
                assert forall|c: int| !is_nearest_right(tabs@, x, c) by {
                    if is_nearest_right(tabs@, x, c) {
                        let kc = choose|k: int| 0 <= k < tabs@.len() && tabs@[k] == c;
                        assert(tabs@[kc] > x);
                    }
                }
                x.saturating_add(2)
            } else {
                assert forall|c: int| !is_nearest_left(tabs@, x, c) by {
                    if is_nearest_left(tabs@, x, c) {
                        let kc = choose|k: int| 0 <= k < tabs@.len() && tabs@[k] == c;
                        assert(tabs@[kc] < x);
                    }
                }
                x.saturating_sub(2)
            }
        },
    }
}

/// The character code of an open paren.
pub const OPEN_PAREN: usize = 0x28;

/// The columns to which a tab stop `[line_no, x, ch, arg_x]` lets a line be
/// indented: its own column, the column after the open character (two after
/// `(`, one after any other), and the column of its first argument when that
/// is not 0.
pub open spec fn stop_columns(stop: [usize; 4]) -> Seq<usize> {
    let x = stop[1];
    let inner = (if stop[2] == OPEN_PAREN { x + 2 } else { x + 1 }) as usize;
    if stop[3] != 0 {
        seq![x, inner, stop[3]]
    } else {
        seq![x, inner]
    }
}

/// The columns of all tab stops, in order.
pub open spec fn tab_columns(stops: Seq<[usize; 4]>) -> Seq<usize>
    decreases stops.len(),
{
    if stops.len() == 0 {
        Seq::<usize>::empty()
    } else {
        tab_columns(stops.drop_last()) + stop_columns(stops.last())
    }
}

/// The column after the open character of every tab stop fits in a `usize`.
pub open spec fn stops_fit(stops: Seq<[usize; 4]>) -> bool {
    forall|i: int| 0 <= i < stops.len() ==> (#[trigger] stops[i])[1] + (if stops[i][2] == OPEN_PAREN { 2int } else { 1int }) <= usize::MAX
}

/// Moves an indentation at column `x` to the nearest tab column of
/// `tab_stops` in direction `dx`, or by two columns when there is none.
pub fn shift_indent(tab_stops: &[[usize; 4]], dx: &Direction, x: usize) -> (column: usize)
    requires
        stops_fit(tab_stops@),
    ensures
        column == shifted_column(tab_columns(tab_stops@), x, *dx),
{
    let mut tabs: Vec<usize> = Vec::new();
    let mut i: usize = 0;
    while i < tab_stops.len()
        invariant
            i <= tab_stops@.len(),
            stops_fit(tab_stops@),
            tabs@ == tab_columns(tab_stops@.take(i as int)),
        decreases tab_stops@.len() - i,
    {
        let stop = tab_stops[i];
        let x0 = stop[1];
        assert(tab_stops@[i as int] == stop);
        let inner = x0 + if stop[2] == OPEN_PAREN { 2 } else { 1 };
        tabs.push(x0);
        tabs.push(inner);
        if stop[3] != 0 {
            tabs.push(stop[3]);
        }
        proof {
            assert(tab_stops@.take(i + 1).drop_last() =~= tab_stops@.take(i as int));
            assert(tab_stops@.take(i + 1).last() == stop);
            assert(tabs@ =~= tab_columns(tab_stops@.take(i as int)) + stop_columns(stop));
        }
        i = i + 1;
    }
    assert(tab_stops@.take(tab_stops@.len() as int) =~= tab_stops@);
    shift_to_tab(&tabs, dx, x)
}

/// Shifting moves an indentation: forward strictly to the right unless it is
/// at `usize::MAX` already, backward strictly to the left unless it is at 0
/// already; and it skips no tab column on the way.
pub proof fn lemma_shift_moves(tabs: Seq<usize>, x: usize, dir: Direction)
    ensures
        dir == Direction::Forward && x < usize::MAX ==> shifted_column(tabs, x, dir) > x,
        dir == Direction::Forward ==> forall|i: int| 0 <= i < tabs.len() && tabs[i] > x ==> shifted_column(tabs, x, dir) <= tabs[i],
        dir == Direction::Backward && x > 0 ==> shifted_column(tabs, x, dir) < x,
        dir == Direction::Backward ==> forall|i: int| 0 <= i < tabs.len() && tabs[i] < x ==> tabs[i] <= shifted_column(tabs, x, dir),
{
    if dir == Direction::Forward {
        if !exists|t: int| is_nearest_right(tabs, x, t) {
            assert forall|i: int| 0 <= i < tabs.len() && tabs[i] > x implies shifted_column(tabs, x, dir) <= tabs[i] by {
                lemma_nearest_right_exists(tabs, x, i);
            }
        }
    } else {
        if !exists|t: int| is_nearest_left(tabs, x, t) {
            assert forall|i: int| 0 <= i < tabs.len() && tabs[i] < x implies tabs[i] <= shifted_column(tabs, x, dir) by {
                lemma_nearest_left_exists(tabs, x, i);
            }
        }
    }
}

/// Where an indentation moves depends only on which tab columns occur, not on
/// their order or repetitions.
pub proof fn lemma_shift_same_columns(tabs1: Seq<usize>, tabs2: Seq<usize>, x: usize, dir: Direction)
    requires
        forall|v: usize| tabs1.contains(v) <==> tabs2.contains(v),
    ensures
        shifted_column(tabs1, x, dir) == shifted_column(tabs2, x, dir),
{
    assert forall|t: int| is_nearest_right(tabs1, x, t) <==> is_nearest_right(tabs2, x, t) by {
        if is_nearest_right(tabs1, x, t) {
            lemma_nearest_right_same(tabs1, tabs2, x, t);
        }
        if is_nearest_right(tabs2, x, t) {
            lemma_nearest_right_same(tabs2, tabs1, x, t);
        }
    }
    assert forall|t: int| is_nearest_left(tabs1, x, t) <==> is_nearest_left(tabs2, x, t) by {
        if is_nearest_left(tabs1, x, t) {
            lemma_nearest_left_same(tabs1, tabs2, x, t);
        }
        if is_nearest_left(tabs2, x, t) {
            lemma_nearest_left_same(tabs2, tabs1, x, t);
        }
    }
    if exists|t: int| is_nearest_right(tabs1, x, t) {
        let c1 = choose|t: int| is_nearest_right(tabs1, x, t);
        let c2 = choose|t: int| is_nearest_right(tabs2, x, t);
        assert(is_nearest_right(tabs2, x, c1));
        let k1 = choose|k: int| 0 <= k < tabs2.len() && tabs2[k] == c1;
        let k2 = choose|k: int| 0 <= k < tabs2.len() && tabs2[k] == c2;
        assert(c1 <= tabs2[k2] && c2 <= tabs2[k1]);
    }
    if exists|t: int| is_nearest_left(tabs1, x, t) {
        let c1 = choose|t: int| is_nearest_left(tabs1, x, t);
        let c2 = choose|t: int| is_nearest_left(tabs2, x, t);
        assert(is_nearest_left(tabs2, x, c1));
        let k1 = choose|k: int| 0 <= k < tabs2.len() && tabs2[k] == c1;
        let k2 = choose|k: int| 0 <= k < tabs2.len() && tabs2[k] == c2;
        assert(tabs2[k2] <= c1 && tabs2[k1] <= c2);
    }
}

proof fn lemma_nearest_right_same(tabs1: Seq<usize>, tabs2: Seq<usize>, x: usize, t: int)
    requires
        forall|v: usize| tabs1.contains(v) <==> tabs2.contains(v),
        is_nearest_right(tabs1, x, t),
    ensures
        is_nearest_right(tabs2, x, t),
{
    let k = choose|k: int| 0 <= k < tabs1.len() && tabs1[k] == t;
    assert(tabs1.contains(tabs1[k]));
    assert(tabs2.contains(t as usize));
    assert forall|i: int| 0 <= i < tabs2.len() && tabs2[i] > x implies t <= tabs2[i] by {
        assert(tabs2.contains(tabs2[i]));
        assert(tabs1.contains(tabs2[i]));
    }
}

proof fn lemma_nearest_left_same(tabs1: Seq<usize>, tabs2: Seq<usize>, x: usize, t: int)
    requires
        forall|v: usize| tabs1.contains(v) <==> tabs2.contains(v),
        is_nearest_left(tabs1, x, t),
    ensures
        is_nearest_left(tabs2, x, t),
{
    let k = choose|k: int| 0 <= k < tabs1.len() && tabs1[k] == t;
    assert(tabs1.contains(tabs1[k]));
    assert(tabs2.contains(t as usize));
    assert forall|i: int| 0 <= i < tabs2.len() && tabs2[i] < x implies tabs2[i] <= t by {
        assert(tabs2.contains(tabs2[i]));
        assert(tabs1.contains(tabs2[i]));
    }
}

/// A column occurs among the tab columns of some stops exactly when it is a
/// column of one of the stops.
pub proof fn lemma_tab_columns_contains(stops: Seq<[usize; 4]>, v: usize)
    ensures
        tab_columns(stops).contains(v) <==> exists|i: int| 0 <= i < stops.len() && stop_columns(#[trigger] stops[i]).contains(v),
    decreases stops.len(),
{
    if stops.len() > 0 {
        let init = stops.drop_last();
        lemma_tab_columns_contains(init, v);
        let head = tab_columns(init);
        let tail = stop_columns(stops.last());
        let all = head + tail;
        if all.contains(v) {
            let k = choose|k: int| 0 <= k < all.len() && all[k] == v;
            if k < head.len() {
                assert(head[k] == v);
                assert(head.contains(v));
                let i = choose|i: int| 0 <= i < init.len() && stop_columns(#[trigger] init[i]).contains(v);
                assert(stops[i] == init[i]);
            } else {
                assert(tail[k - head.len()] == v);
                assert(tail.contains(v));
                assert(stops[stops.len() - 1] == stops.last());
            }
        }
        if exists|i: int| 0 <= i < stops.len() && stop_columns(#[trigger] stops[i]).contains(v) {
            let i = choose|i: int| 0 <= i < stops.len() && stop_columns(#[trigger] stops[i]).contains(v);
            if i < stops.len() - 1 {
                assert(init[i] == stops[i]);
                assert(head.contains(v));
                let k = choose|k: int| 0 <= k < head.len() && head[k] == v;
                assert(all[k] == v);
            } else {
                assert(tail.contains(v));
                let k = choose|k: int| 0 <= k < tail.len() && tail[k] == v;
                assert(all[head.len() + k] == v);
            }
        }
    }
}

/// `shift_indent` does not depend on the order of the tab stops: two lists
/// holding the same stops (a reordering, with or without repetitions) give
/// the same column.
pub proof fn lemma_shift_indent_order_free(stops1: Seq<[usize; 4]>, stops2: Seq<[usize; 4]>, x: usize, dir: Direction)
    requires
        forall|i: int| 0 <= i < stops1.len() ==> stops2.contains(#[trigger] stops1[i]),
        forall|i: int| 0 <= i < stops2.len() ==> stops1.contains(#[trigger] stops2[i]),
    ensures
        shifted_column(tab_columns(stops1), x, dir) == shifted_column(tab_columns(stops2), x, dir),
{
    assert forall|v: usize| tab_columns(stops1).contains(v) <==> tab_columns(stops2).contains(v) by {
        lemma_tab_columns_contains(stops1, v);
        lemma_tab_columns_contains(stops2, v);
        if tab_columns(stops1).contains(v) {
            let i = choose|i: int| 0 <= i < stops1.len() && stop_columns(#[trigger] stops1[i]).contains(v);
            assert(stops2.contains(stops1[i]));
            let j = choose|j: int| 0 <= j < stops2.len() && stops2[j] == stops1[i];
            assert(stop_columns(stops2[j]).contains(v));
        }
        if tab_columns(stops2).contains(v) {
            let i = choose|i: int| 0 <= i < stops2.len() && stop_columns(#[trigger] stops2[i]).contains(v);
            assert(stops1.contains(stops2[i]));
            let j = choose|j: int| 0 <= j < stops1.len() && stops1[j] == stops2[i];
            assert(stop_columns(stops1[j]).contains(v));
        }
    }
    lemma_shift_same_columns(tab_columns(stops1), tab_columns(stops2), x, dir);
}

/// The tab columns of a list of tab stops are exactly these: for each stop
/// `[line_no, x, ch, arg_x]`, its column `x`; `x + 2` when `ch` is an open
/// paren `(` and `x + 1` for every other character; and `arg_x` when it is
/// not 0.
pub proof fn lemma_tab_columns_table(stops: Seq<[usize; 4]>, v: usize)
    requires
        stops_fit(stops),
    ensures
        tab_columns(stops).contains(v) <==> exists|i: int| 0 <= i < stops.len() && {
            let stop = #[trigger] stops[i];
            ||| v == stop[1]
            ||| v == stop[1] + (if stop[2] == 0x28 { 2int } else { 1int })
            ||| (stop[3] != 0 && v == stop[3])
        },
{
    lemma_tab_columns_contains(stops, v);
    assert forall|i: int| 0 <= i < stops.len() implies (stop_columns(#[trigger] stops[i]).contains(v) <==> {
        let stop = stops[i];
        ||| v == stop[1]
        ||| v == stop[1] + (if stop[2] == 0x28 { 2int } else { 1int })
        ||| (stop[3] != 0 && v == stop[3])
    }) by {
        let stop = stops[i];
        let cols = stop_columns(stop);
        assert(cols[0] == stop[1]);
        assert(cols[1] == stop[1] + (if stop[2] == 0x28 { 2int } else { 1int }));
        if stop[3] != 0 {
            assert(cols[2] == stop[3]);
        }
        if cols.contains(v) {
            let k = choose|k: int| 0 <= k < cols.len() && cols[k] == v;
        }
    }
}

/// Shifting picks the nearest tab column: forward, when some tab column lies
/// right of `x`, a tab column right of `x` with none between them, and two
/// columns right (at most `usize::MAX`) when none does; backward, when some
/// tab column lies left of `x`, a tab column left of `x` with none between
/// them, and two columns left (at least 0) when none does.
pub proof fn lemma_shift_nearest(tabs: Seq<usize>, x: usize, dir: Direction)
    ensures
        ({
            let r = shifted_column(tabs, x, dir);
            &&& dir == Direction::Forward ==> {
                &&& (exists|v: usize| tabs.contains(v) && v > x) ==> {
                    &&& r > x
                    &&& tabs.contains(r as usize)
                    &&& forall|v: usize| tabs.contains(v) && v > x ==> r <= v
                }
                &&& !(exists|v: usize| tabs.contains(v) && v > x) ==> r == (if x + 2 <= usize::MAX { x + 2 } else { usize::MAX as int })
            }
            &&& dir == Direction::Backward ==> {
                &&& (exists|v: usize| tabs.contains(v) && v < x) ==> {
                    &&& r < x
                    &&& tabs.contains(r as usize)
                    &&& forall|v: usize| tabs.contains(v) && v < x ==> v <= r
                }
                &&& !(exists|v: usize| tabs.contains(v) && v < x) ==> r == (if x >= 2 { x - 2 } else { 0 })
            }
        }),
{
    let r = shifted_column(tabs, x, dir);
    if dir == Direction::Forward {
        if exists|v: usize| tabs.contains(v) && v > x {
            let v = choose|v: usize| tabs.contains(v) && v > x;
            let k = choose|k: int| 0 <= k < tabs.len() && tabs[k] == v;
            lemma_nearest_right_exists(tabs, x, k);
            let t = choose|t: int| is_nearest_right(tabs, x, t);
            let kt = choose|j: int| 0 <= j < tabs.len() && tabs[j] == t;
            assert(tabs[kt] == t);
            assert forall|u: usize| tabs.contains(u) && u > x implies r <= u by {
                let ku = choose|j: int| 0 <= j < tabs.len() && tabs[j] == u;
            }
        } else {
            assert forall|t: int| !is_nearest_right(tabs, x, t) by {
                if is_nearest_right(tabs, x, t) {
                    let kt = choose|j: int| 0 <= j < tabs.len() && tabs[j] == t;
                    assert(tabs.contains(tabs[kt]));
                }
            }
        }
    } else {
        if exists|v: usize| tabs.contains(v) && v < x {
            let v = choose|v: usize| tabs.contains(v) && v < x;
            let k = choose|k: int| 0 <= k < tabs.len() && tabs[k] == v;
            lemma_nearest_left_exists(tabs, x, k);
            let t = choose|t: int| is_nearest_left(tabs, x, t);
            let kt = choose|j: int| 0 <= j < tabs.len() && tabs[j] == t;
            assert(tabs[kt] == t);
            assert forall|u: usize| tabs.contains(u) && u < x implies u <= r by {
                let ku = choose|j: int| 0 <= j < tabs.len() && tabs[j] == u;
            }
        } else {
            assert forall|t: int| !is_nearest_left(tabs, x, t) by {
                if is_nearest_left(tabs, x, t) {
                    let kt = choose|j: int| 0 <= j < tabs.len() && tabs[j] == t;
                    assert(tabs.contains(tabs[kt]));
                }
            }
        }
    }
}

/// A tab column right of `x` implies a nearest one.
proof fn lemma_nearest_right_exists(tabs: Seq<usize>, x: usize, i: int)
    requires
        0 <= i < tabs.len(),
        tabs[i] > x,
    ensures
        exists|t: int| is_nearest_right(tabs, x, t),
    decreases tabs[i],
{
    if exists|j: int| 0 <= j < tabs.len() && tabs[j] > x && tabs[j] < tabs[i] {
        let j = choose|j: int| 0 <= j < tabs.len() && tabs[j] > x && tabs[j] < tabs[i];
        lemma_nearest_right_exists(tabs, x, j);
    } else {
        assert(is_nearest_right(tabs, x, tabs[i] as int));
    }
}

/// A tab column left of `x` implies a nearest one.
proof fn lemma_nearest_left_exists(tabs: Seq<usize>, x: usize, i: int)
    requires
        0 <= i < tabs.len(),
        tabs[i] < x,
    ensures
        exists|t: int| is_nearest_left(tabs, x, t),
    decreases x - tabs[i],
{
    if exists|j: int| 0 <= j < tabs.len() && tabs[j] < x && tabs[j] > tabs[i] {
        let j = choose|j: int| 0 <= j < tabs.len() && tabs[j] < x && tabs[j] > tabs[i];
        lemma_nearest_left_exists(tabs, x, j);
    } else {
        assert(is_nearest_left(tabs, x, tabs[i] as int));
    }
}

/// A parinfer error as the editor receives it.
pub struct IntegrationError {
    pub name: String,
    pub message: String,
    pub col: usize,
    pub row: usize,
}

impl IntegrationError {
    /// The error's name, message, column and line.
    pub fn new(value: &Error) -> (res: IntegrationError)
        ensures
            res.name@ == value.name@,
            res.message@ == value.message@,
            res.col == value.x,
            res.row == value.line_no,
    {
        IntegrationError {
            name: value.name.clone(),
            message: value.message.clone(),
            col: value.x,
            row: value.line_no,
        }
    }
}

/// The first byte of the UTF-8 encoding of a string, or the code of an open
/// paren when the string is empty.
pub open spec fn first_byte_or_open_paren(s: Seq<char>) -> usize {
    let bytes = vstd::utf8::encode_utf8(s);
    if bytes.len() > 0 {
        bytes[0] as usize
    } else {
        OPEN_PAREN
    }
}

/// The open character of a tab stop is read as its first byte: the code of
/// an ASCII character for a one-character string, the leading byte of its
/// UTF-8 encoding in general, and the code of `(` for the empty string.
pub proof fn lemma_first_byte(s: Seq<char>, c: char)
    ensures
        first_byte_or_open_paren(Seq::<char>::empty()) == 0x28,
        (c as u32) < 0x80 ==> first_byte_or_open_paren(seq![c]) == c as usize,
        s.len() > 0 ==> first_byte_or_open_paren(s) == vstd::utf8::encode_utf8(s)[0] as usize,
        s.len() > 0 ==> first_byte_or_open_paren(s) == vstd::utf8::encode_utf8(seq![s[0]])[0] as usize,
{
    assert(vstd::utf8::encode_utf8(Seq::<char>::empty()) =~= Seq::<u8>::empty()) by {
        reveal_with_fuel(vstd::utf8::encode_utf8, 1);
    }
    if (c as u32) < 0x80 {
        vstd::utf8::is_ascii_chars_encode_utf8(seq![c]);
        assert(vstd::utf8::is_ascii_chars(seq![c]));
    }
    if s.len() > 0 {
        vstd::utf8::encode_utf8_first_scalar(s);
        vstd::utf8::encode_utf8_first_scalar(seq![s[0]]);
    }
}

/// What the editor receives of an answer: its tab stops as
/// `[line_no, x, ch, arg_x]`, its paren trails as `[line_no, start_x, end_x]`,
/// and its error.
pub struct IntegrationResponse {
    pub tab_stops: Vec<[usize; 4]>,
    pub paren_trails: Vec<[usize; 3]>,
    pub error: Option<IntegrationError>,
}

/// `response` is what the editor receives of `answer`: each tab stop with the
/// first byte of its open character (an open paren when it has none) and its
/// argument column (0 when it has none), each paren trail, and the error.
pub open spec fn is_response_of(response: IntegrationResponse, answer: Answer) -> bool {
    &&& response.tab_stops@.len() == answer.tab_stops@.len()
    &&& forall|i: int| 0 <= i < answer.tab_stops@.len() ==> {
        let t = #[trigger] answer.tab_stops@[i];
        response.tab_stops@[i]@ == seq![
            t.line_no,
            t.x,
            first_byte_or_open_paren(t.ch@),
            match t.arg_x { Some(a) => a, None => 0usize },
        ]
    }
    &&& response.paren_trails@.len() == answer.paren_trails@.len()
    &&& forall|i: int| 0 <= i < answer.paren_trails@.len() ==> {
        let t = #[trigger] answer.paren_trails@[i];
        response.paren_trails@[i]@ == seq![t.line_no, t.start_x, t.end_x]
    }
    &&& response.error is Some <==> answer.error is Some
    &&& response.error matches Some(e) ==> {
        let a = answer.error->0;
        &&& e.name@ == a.name@
        &&& e.message@ == a.message@
        &&& e.col == a.x
        &&& e.row == a.line_no
    }
}

impl IntegrationResponse {
    /// The editor's view of an answer.
    pub fn new(value: &Answer) -> (res: IntegrationResponse)
        ensures
            is_response_of(res, *value),
    {
        let mut tab_stops: Vec<[usize; 4]> = Vec::new();
        let mut i: usize = 0;
        while i < value.tab_stops.len()
            invariant
                i <= value.tab_stops@.len(),
                tab_stops@.len() == i,
                forall|k: int| 0 <= k < i ==> {
                    let t = #[trigger] value.tab_stops@[k];
                    tab_stops@[k]@ == seq![
                        t.line_no,
                        t.x,
                        first_byte_or_open_paren(t.ch@),
                        match t.arg_x { Some(a) => a, None => 0usize },
                    ]
                },
            decreases value.tab_stops@.len() - i,
        {
            let t = &value.tab_stops[i];
            let bytes = t.ch.as_str().as_bytes();
            let ch: usize = if bytes.len() > 0 { bytes[0] as usize } else { OPEN_PAREN };
            let arg_x = match t.arg_x {
                Some(a) => a,
                None => 0,
            };
            let entry = [t.line_no, t.x, ch, arg_x];
            assert(entry@ =~= seq![t.line_no, t.x, ch, arg_x]);
            tab_stops.push(entry);
            i = i + 1;
        }
        let mut paren_trails: Vec<[usize; 3]> = Vec::new();
        let mut j: usize = 0;
        while j < value.paren_trails.len()
            invariant
                j <= value.paren_trails@.len(),
                paren_trails@.len() == j,
                forall|k: int| 0 <= k < j ==> {
                    let t = #[trigger] value.paren_trails@[k];
                    paren_trails@[k]@ == seq![t.line_no, t.start_x, t.end_x]
                },
            decreases value.paren_trails@.len() - j,
        {
            let t = &value.paren_trails[j];
            let entry = [t.line_no, t.start_x, t.end_x];
            assert(entry@ =~= seq![t.line_no, t.start_x, t.end_x]);
            paren_trails.push(entry);
            j = j + 1;
        }
        let error = match &value.error {
            Some(e) => Some(IntegrationError::new(e)),
            None => None,
        };
        IntegrationResponse { tab_stops, paren_trails, error }
    }
}

/// An editor buffer as parinfer sees it: its lines and its cursor as
/// `[line, visual column]`, both 0-indexed.
pub type State = (Vec<String>, [usize; 2]);

/// `options` carry the cursor at `line` and `x` and, when there is a previous state, its lines
/// joined by newlines and its cursor; no selection and no changes.
pub open spec fn has_cursors(
    options: crate::types::Options,
    line: usize,
    x: usize,
    previous: Option<(Seq<Seq<char>>, usize, usize)>,
) -> bool {
    &&& options.cursor_line == Some(line)
    &&& options.cursor_x == Some(x)
    &&& options.selection_start_line is None
    &&& options.changes@.len() == 0
    &&& match previous {
        Some(prev) => {
            &&& options.prev_text matches Some(t) && t@ == join_lines_spec(prev.0)
            &&& options.prev_cursor_line == Some(prev.1)
            &&& options.prev_cursor_x == Some(prev.2)
        },
        None => {
            &&& options.prev_text is None
            &&& options.prev_cursor_line is None
            &&& options.prev_cursor_x is None
        },
    }
}

/// `request` runs parinfer in smart mode on `lines` joined by newlines, with
/// the options of `dialect`, the cursor at `line` and `x`, and the previous
/// lines and cursor when there are some.
pub open spec fn is_request_for(
    request: Request,
    dialect: Seq<char>,
    lines: Seq<Seq<char>>,
    line: usize,
    x: usize,
    previous: Option<(Seq<Seq<char>>, usize, usize)>,
) -> bool {
    &&& request.mode@ == seq!['s', 'm', 'a', 'r', 't']
    &&& request.text@ == join_lines_spec(lines)
    &&& has_dialect_syntax(request.options, dialect)
    &&& has_cursors(request.options, line, x, previous)
}

/// Builds the request of a run.
pub(crate) fn make_request(
    dialect: &str,
    lines: &[String],
    cursor: [usize; 2],
    previous: Option<(&[String], [usize; 2])>,
) -> (request: Request)
    ensures
        is_request_for(
            request,
            dialect@,
            views_of(lines@),
            cursor[0],
            cursor[1],
            match previous {
                Some(prev) => Some((views_of(prev.0@), prev.1[0], prev.1[1])),
                None => None,
            },
        ),
{
    let mut options = dialect_options(dialect);
    options.cursor_line = Some(cursor[0]);
    options.cursor_x = Some(cursor[1]);
    match previous {
        Some(prev) => {
            options.prev_text = Some(join_lines(prev.0));
            options.prev_cursor_line = Some(prev.1[0]);
            options.prev_cursor_x = Some(prev.1[1]);
        },
        None => {},
    }
    let mode = string_from_chars(&['s', 'm', 'a', 'r', 't']);
    assert(['s', 'm', 'a', 'r', 't']@ =~= seq!['s', 'm', 'a', 'r', 't']);
    Request { mode, text: join_lines(lines), options }
}

/// The request of a run in smart mode on the current lines joined by
/// newlines, with the options of the dialect, the current cursor, and the
/// previous text and cursor when there is a previous state.
pub fn build_request(dialect: &str, current: &State, previous: &Option<State>) -> (request: Request)
    ensures
        is_request_for(
            request,
            dialect@,
            views_of(current.0@),
            current.1[0],
            current.1[1],
            match *previous {
                Some(prev) => Some((views_of(prev.0@), prev.1[0], prev.1[1])),
                None => None,
            },
        ),
{
    match previous {
        Some(prev) => make_request(dialect, current.0.as_slice(), current.1, Some((prev.0.as_slice(), prev.1))),
        None => make_request(dialect, current.0.as_slice(), current.1, None),
    }
}

/// The reply to the editor and the new state, read off an answer that
/// carries a cursor: the answer's text split into lines, and its cursor.
pub fn read_answer(answer: &Answer) -> (res: (IntegrationResponse, State))
    requires
        answer.cursor_line is Some,
        answer.cursor_x is Some,
    ensures
        is_response_of(res.0, *answer),
        views_of(res.1.0@) == split_lines_spec(answer.text@),
        res.1.1@ == seq![answer.cursor_line->0, answer.cursor_x->0],
{
    let lines = split_lines(answer.text.as_str());
    let cursor = [answer.cursor_line.unwrap(), answer.cursor_x.unwrap()];
    assert(cursor@ =~= seq![answer.cursor_line->0, answer.cursor_x->0]);
    (IntegrationResponse::new(answer), (lines, cursor))
}

/// Runs parinfer, by `process`, on the current state after the previous one
/// if any, and reads its answer: the reply to the editor and the new state.
/// `process` must answer every request with a cursor.
pub fn run<F: Fn(&Request) -> Answer>(dialect: &str, current: &State, previous: &Option<State>, process: F) -> (res: (
    IntegrationResponse,
    State,
))
    requires
        forall|request: &Request| process.requires((request,)),
        forall|request: &Request, answer: Answer| process.ensures((request,), answer) ==> answer.cursor_line is Some && answer.cursor_x is Some,
    ensures
        exists|request: Request, answer: Answer| {
            &&& is_request_for(
                request,
                dialect@,
                views_of(current.0@),
                current.1[0],
                current.1[1],
                match *previous {
                    Some(prev) => Some((views_of(prev.0@), prev.1[0], prev.1[1])),
                    None => None,
                },
            )
            &&& process.ensures((&request,), answer)
            &&& is_response_of(res.0, answer)
            &&& views_of(res.1.0@) == split_lines_spec(answer.text@)
            &&& res.1.1@ == seq![answer.cursor_line->0, answer.cursor_x->0]
        },
{
    let request = build_request(dialect, current, previous);
    let answer = process(&request);
    read_answer(&answer)
}

/// Converts an editor cursor `[line, byte column]`, with lines counted from
/// 1, to parinfer's `[line, visual column]`, with lines counted from 0.
pub fn cursor_to_parinfer(lines: &[String], cursor: [usize; 2]) -> (position: [usize; 2])
    requires
        1 <= cursor[0] <= lines@.len(),
    ensures
        position[0] == cursor[0] - 1,
        position[1] == spec_bytepos_to_charpos(lines@[cursor[0] - 1]@, cursor[1]),
{
    let row = cursor[0] - 1;
    [row, bytepos_to_charpos(lines[row].as_str(), cursor[1])]
}

/// Converts parinfer's `[line, visual column]`, with lines counted from 0, to
/// an editor cursor `[line, byte column]`, with lines counted from 1.
pub fn cursor_to_editor(lines: &[String], position: [usize; 2]) -> (cursor: [usize; 2])
    requires
        position[0] < lines@.len(),
    ensures
        cursor[0] == position[0] + 1,
        cursor[1] == spec_charpos_to_bytepos(lines@[position[0] as int]@, str_byte_len(lines@[position[0] as int]@) as int, position[1]),
{
    let row = position[0];
    let count = lines.len();
    assert(row < count);
    [row + 1, charpos_to_bytepos(lines[row].as_str(), position[1])]
}

/// Marks each position below the larger count of lines where `before` and
/// `after` differ: a line present in only one of them differs.
pub open spec fn line_mismatches(before: Seq<Seq<char>>, after: Seq<Seq<char>>) -> Seq<bool> {
    Seq::new(
        if before.len() >= after.len() { before.len() } else { after.len() },
        |i: int| if i < before.len() && i < after.len() { before[i] != after[i] } else { true },
    )
}

/// One less than `n`, or 0 for 0.
pub open spec fn saturating_pred(n: int) -> usize {
    if n > 0 { (n - 1) as usize } else { 0 }
}

/// The changed lines between two versions of a buffer as
/// `[start, end, new_start, new_end]`, inclusive, where the ends of the
/// smallest differing ranges are stepped back by one (an empty range keeps
/// its start); nothing when the versions are equal.
pub open spec fn spec_line_changes(before: Seq<Seq<char>>, after: Seq<Seq<char>>) -> Option<Seq<usize>> {
    match ranges_by_mismatches(before.len() as int, after.len() as int, line_mismatches(before, after)) {
        Some((start, end, new_start, new_end)) => Some(seq![
            start as usize,
            saturating_pred(end),
            new_start as usize,
            saturating_pred(new_end),
        ]),
        None => None,
    }
}

/// The changed lines between two versions of a buffer.
pub fn line_changes(before: &[String], after: &[String]) -> (changes: Option<[usize; 4]>)
    ensures
        changes is None <==> spec_line_changes(views_of(before@), views_of(after@)) is None,
        changes matches Some(c) ==> c@ == spec_line_changes(views_of(before@), views_of(after@))->0,
{
    let max_len: usize = if before.len() >= after.len() { before.len() } else { after.len() };
    let ghost expected = line_mismatches(views_of(before@), views_of(after@));
    let mut mismatches: Vec<bool> = Vec::new();
    let mut i: usize = 0;
    while i < max_len
        invariant
            max_len == expected.len(),
            expected == line_mismatches(views_of(before@), views_of(after@)),
            i <= max_len,
            mismatches@.len() == i,
            forall|j: int| 0 <= j < i ==> mismatches@[j] == expected[j],
        decreases max_len - i,
    {
        let differs = if i < before.len() && i < after.len() { !(before[i] == after[i]) } else { true };
        mismatches.push(differs);
        i = i + 1;
    }
    assert(mismatches@ =~= expected);
    match ranges_from_mismatches(before.len(), after.len(), &mismatches) {
        Some((range, new_range)) => {
            let c = [range.start, range.end.saturating_sub(1), new_range.start, new_range.end.saturating_sub(1)];
            assert(c@ =~= spec_line_changes(views_of(before@), views_of(after@))->0);
            Some(c)
        },
        None => None,
    }
}

/// The changed lines that `line_changes` reports are the smallest range: it
/// starts, the same on both sides, at the first line that differs (or at the
/// shorter line count when the shared lines agree), every line before it is
/// equal; when both versions have the same number of lines it ends, the same
/// on both sides, at the last line that differs, and every line after it is
/// equal; otherwise it ends at the last line of each version (0 for none).
pub proof fn lemma_line_changes_smallest(before: Seq<Seq<char>>, after: Seq<Seq<char>>)
    requires
        before.len() <= usize::MAX,
        after.len() <= usize::MAX,
    ensures
        spec_line_changes(before, after) matches Some(c) ==> {
            &&& c.len() == 4
            &&& c[0] == c[2]
            &&& c[0] <= before.len() && c[0] <= after.len()
            &&& forall|j: int| 0 <= j < c[0] ==> before[j] == after[j]
            &&& (c[0] < before.len() && c[0] < after.len() ==> before[c[0] as int] != after[c[0] as int])
            &&& before.len() == after.len() ==> {
                &&& c[1] == c[3]
                &&& c[0] <= c[1] < before.len()
                &&& before[c[1] as int] != after[c[1] as int]
                &&& forall|j: int| c[1] < j < before.len() ==> before[j] == after[j]
            }
            &&& before.len() != after.len() ==> {
                &&& c[1] == (if before.len() > 0 { before.len() - 1 } else { 0 })
                &&& c[3] == (if after.len() > 0 { after.len() - 1 } else { 0 })
            }
        },
{
    let m = line_mismatches(before, after);
    if exists|i: int| 0 <= i < m.len() && m[i] {
        let w = choose|i: int| 0 <= i < m.len() && m[i];
        lemma_first_marked_exists(m, w);
        lemma_last_marked_exists(m, w);
        let first = choose|i: int| is_first_marked(m, i);
        let last = choose|i: int| is_last_marked(m, i);
        assert(first <= last) by {
            if last < first {
                assert(!m[last]);
            }
        }
        assert(first <= before.len() && first <= after.len()) by {
            if first > before.len() {
                assert(m[before.len() as int]);
            }
            if first > after.len() {
                assert(m[after.len() as int]);
            }
        }
        assert forall|j: int| 0 <= j < first implies before[j] == after[j] by {
            assert(!m[j]);
        }
        if before.len() != after.len() {
            let top = m.len() - 1;
            assert(m[top]);
            assert(last == top) by {
                if last < top {
                    assert(!m[top]);
                }
            }
        } else {
            assert(m[first] && m[last]);
            assert forall|j: int| last < j < before.len() implies before[j] == after[j] by {
                assert(!m[j]);
            }
        }
    }
}

/// The changed lines are reported exactly when the two versions of the buffer
/// differ.
pub proof fn lemma_line_changes_none(before: Seq<Seq<char>>, after: Seq<Seq<char>>)
    ensures
        spec_line_changes(before, after) is None <==> before == after,
{
    let m = line_mismatches(before, after);
    if before == after {
        assert forall|i: int| 0 <= i < m.len() implies !m[i] by {}
    } else if before.len() == after.len() {
        if !(exists|k: int| 0 <= k < before.len() && before[k] != after[k]) {
            assert(before =~= after);
        }
        let k = choose|k: int| 0 <= k < before.len() && before[k] != after[k];
        assert(m[k]);
    } else {
        assert(m[m.len() - 1]);
    }
}

} // verus!
