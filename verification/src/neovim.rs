//! The state that the editor keeps of a buffer between runs, and what it
//! reads off that state: suggested edits, indentation and paren-trail
//! decorations.

use vstd::prelude::*;
use crate::conversion::{
    charpos_to_bytepos, diff_lines, lemma_diff_lines_none_iff_equal, lemma_diff_lines_smallest, spec_bytepos_to_charpos,
    spec_charpos_to_bytepos, spec_diff_lines,
};
use crate::graphemes::str_byte_len;
use crate::integration::{
    cursor_to_parinfer, first_byte_or_open_paren, is_request_for, make_request, shift_to_tab,
    shifted_column, stop_columns, tab_columns, Direction,
};
use crate::text::{chars_of, push_char, split_lines, split_lines_spec, views_of};
use crate::types::{Answer, Error, ParenTrail, Request};

verus! {

/// A tab stop as the editor keeps it: the first byte of its open character.
pub struct TabStop {
    pub line_no: usize,
    pub x: usize,
    pub ch: u8,
    pub arg_x: Option<usize>,
}

/// `stop` is the editor's copy of the answer's tab stop `from`.
pub open spec fn is_tab_stop_of(stop: TabStop, from: crate::types::TabStop) -> bool {
    &&& stop.line_no == from.line_no
    &&& stop.x == from.x
    &&& stop.ch as usize == first_byte_or_open_paren(from.ch@)
    &&& stop.arg_x == from.arg_x
}

impl TabStop {
    /// The editor's copy of a tab stop of an answer, with the first byte of
    /// its open character, or an open paren when it has none.
    pub fn from_answer(value: &crate::types::TabStop) -> (stop: TabStop)
        ensures
            is_tab_stop_of(stop, *value),
    {
        let bytes = value.ch.as_str().as_bytes();
        let ch: u8 = if bytes.len() > 0 { bytes[0] } else { 0x28 };
        TabStop { line_no: value.line_no, x: value.x, ch, arg_x: value.arg_x }
    }
}

/// The editor's state of a buffer after a run: its language, the lines and
/// cursor (line and visual column, 0-indexed) that parinfer produced, the tab
/// stops and paren trails of those lines, the lines that changed, and the
/// error of the run, if any.
pub struct EditorState {
    pub language: String,
    pub lines: Vec<String>,
    pub cursor_line: usize,
    pub cursor_x: usize,
    pub tab_stops: Vec<TabStop>,
    pub paren_trails: Vec<ParenTrail>,
    pub changes: Option<[usize; 4]>,
    pub error: Option<Error>,
}

/// `state` is the state of a buffer in `language` whose lines were `before`
/// and that `answer` answered: the answer's text split into lines, its
/// cursor, its tab stops, paren trails and error, and the differing region of
/// the old and the new lines.
pub open spec fn is_state_of(state: EditorState, language: Seq<char>, before: Seq<Seq<char>>, answer: Answer) -> bool {
    &&& state.language@ == language
    &&& views_of(state.lines@) == split_lines_spec(answer.text@)
    &&& answer.cursor_line == Some(state.cursor_line)
    &&& answer.cursor_x == Some(state.cursor_x)
    &&& state.tab_stops@.len() == answer.tab_stops@.len()
    &&& forall|i: int| 0 <= i < answer.tab_stops@.len() ==> is_tab_stop_of(#[trigger] state.tab_stops@[i], answer.tab_stops@[i])
    &&& state.paren_trails == answer.paren_trails
    &&& state.error == answer.error
    &&& (state.changes is None <==> spec_diff_lines(before, split_lines_spec(answer.text@)) is None)
    &&& state.changes matches Some(c) ==> c@ == spec_diff_lines(before, split_lines_spec(answer.text@))->0
}

/// The changes of a state compare the old lines with the new ones: nothing
/// exactly when they are equal; otherwise the region starts at the same index
/// in both, within both, with every line before it equal, and it ends within
/// the old lines (when there are any) and within the new lines.
pub proof fn lemma_state_changes(state: EditorState, language: Seq<char>, before: Seq<Seq<char>>, answer: Answer)
    requires
        is_state_of(state, language, before, answer),
        before.len() <= usize::MAX,
        state.lines@.len() <= usize::MAX,
    ensures
        state.changes is None <==> before == views_of(state.lines@),
        state.changes matches Some(c) ==> {
            let after = views_of(state.lines@);
            &&& c[0] == c[2]
            &&& c[0] <= before.len() && c[0] <= after.len()
            &&& forall|j: int| 0 <= j < c[0] ==> before[j] == after[j]
            &&& (before.len() > 0 ==> c[1] < before.len())
            &&& (after.len() > 0 ==> c[3] < after.len())
        },
{
    let after = views_of(state.lines@);
    lemma_diff_lines_smallest(before, after);
    lemma_diff_lines_none_iff_equal(before, after);
    if state.changes is Some {
        let c = state.changes->0;
        let d = spec_diff_lines(before, after)->0;
        assert(c@ == d);
        assert(c[0] == d[0] && c[1] == d[1] && c[2] == d[2] && c[3] == d[3]);
    }
}

/// The editor's copies of the tab stops of an answer.
fn copy_tab_stops(stops: &Vec<crate::types::TabStop>) -> (copies: Vec<TabStop>)
    ensures
        copies@.len() == stops@.len(),
        forall|i: int| 0 <= i < stops@.len() ==> is_tab_stop_of(#[trigger] copies@[i], stops@[i]),
{
    let mut copies: Vec<TabStop> = Vec::new();
    let mut i: usize = 0;
    while i < stops.len()
        invariant
            i <= stops@.len(),
            copies@.len() == i,
            forall|k: int| 0 <= k < i ==> is_tab_stop_of(#[trigger] copies@[k], stops@[k]),
        decreases stops@.len() - i,
    {
        copies.push(TabStop::from_answer(&stops[i]));
        i = i + 1;
    }
    copies
}

/// An edit that the editor may apply: the new `lines` that replace the old
/// lines `insert_start..=insert_end`, and the cursor `[line, byte column]`,
/// lines counted from 1.
pub struct Suggestion {
    pub lines: Vec<String>,
    pub cursor: [usize; 2],
    pub insert_start: usize,
    pub insert_end: usize,
}

/// `n` is the number of spaces at the start of `line`.
pub open spec fn is_indent_of(line: Seq<char>, n: int) -> bool {
    &&& 0 <= n <= line.len()
    &&& forall|j: int| 0 <= j < n ==> line[j] == ' '
    &&& (n == line.len() || line[n] != ' ')
}

/// The number of spaces at the start of a line.
pub open spec fn indent_of(line: Seq<char>) -> int {
    choose|n: int| is_indent_of(line, n)
}

/// The indentation of a line is the number of spaces at its start: every
/// character before it is a space, and the character at it, if any, is not.
pub proof fn lemma_indent_of_counts_spaces(line: Seq<char>)
    ensures
        0 <= indent_of(line) <= line.len(),
        forall|j: int| 0 <= j < indent_of(line) ==> line[j] == ' ',
        indent_of(line) == line.len() || line[indent_of(line)] != ' ',
{
    lemma_indent_exists(line, 0);
}

/// From `from`, where every earlier character is a space, the spaces run on
/// to some indentation.
proof fn lemma_indent_exists(line: Seq<char>, from: int)
    requires
        0 <= from <= line.len(),
        forall|j: int| 0 <= j < from ==> line[j] == ' ',
    ensures
        exists|n: int| is_indent_of(line, n),
    decreases line.len() - from,
{
    if from == line.len() || line[from] != ' ' {
        assert(is_indent_of(line, from));
    } else {
        lemma_indent_exists(line, from + 1);
    }
}

/// `n` spaces.
pub open spec fn spaces(n: int) -> Seq<char> {
    Seq::new(n as nat, |i: int| ' ')
}

/// `n` spaces are `n` characters, each a space.
pub proof fn lemma_spaces(n: nat)
    ensures
        spaces(n as int).len() == n,
        forall|j: int| 0 <= j < n ==> spaces(n as int)[j] == ' ',
{
}

/// The columns to which a tab stop lets a line be indented: its own column,
/// the column after its open character (two after `(`, one after any other),
/// and the column of its first argument when it has one.
pub open spec fn stop_indent_columns(stop: TabStop) -> Seq<usize> {
    let inner = (if stop.ch == 0x28 { stop.x + 2 } else { stop.x + 1 }) as usize;
    match stop.arg_x {
        Some(a) => seq![stop.x, inner, a],
        None => seq![stop.x, inner],
    }
}

/// The indentation columns of all tab stops, in order.
pub open spec fn indent_columns(stops: Seq<TabStop>) -> Seq<usize>
    decreases stops.len(),
{
    if stops.len() == 0 {
        Seq::<usize>::empty()
    } else {
        indent_columns(stops.drop_last()) + stop_indent_columns(stops.last())
    }
}

/// The direction of an indentation: backward only when dedenting is asked
/// for.
pub open spec fn indent_direction(dedent: Option<bool>) -> Direction {
    if dedent == Some(true) { Direction::Backward } else { Direction::Forward }
}

/// The column after the open character of every tab stop fits in a `usize`.
pub open spec fn tab_stops_fit(stops: Seq<TabStop>) -> bool {
    forall|i: int| 0 <= i < stops.len() ==> (#[trigger] stops[i]).x + (if stops[i].ch == 0x28 { 2int } else { 1int }) <= usize::MAX
}

/// The paren trail lies on a line from `top` to `bottom`.
pub open spec fn in_rows(trail: ParenTrail, top: usize, bottom: usize) -> bool {
    top <= trail.line_no <= bottom
}

/// A paren trail as `[line_no, start, end]` with byte columns of its line.
pub open spec fn decoration_of(lines: Seq<Seq<char>>, trail: ParenTrail) -> Seq<usize> {
    let line = lines[trail.line_no as int];
    seq![
        trail.line_no,
        spec_charpos_to_bytepos(line, str_byte_len(line) as int, trail.start_x) as usize,
        spec_charpos_to_bytepos(line, str_byte_len(line) as int, trail.end_x) as usize,
    ]
}

/// The decorations of the paren trails on lines `top` to `bottom`, in order.
pub open spec fn decorations_of(lines: Seq<Seq<char>>, trails: Seq<ParenTrail>, top: usize, bottom: usize) -> Seq<Seq<usize>>
    decreases trails.len(),
{
    if trails.len() == 0 {
        Seq::<Seq<usize>>::empty()
    } else {
        let init = decorations_of(lines, trails.drop_last(), top, bottom);
        if in_rows(trails.last(), top, bottom) {
            init.push(decoration_of(lines, trails.last()))
        } else {
            init
        }
    }
}

/// A column occurs among the indentation columns of some stops exactly when
/// it is a column of one of the stops.
proof fn lemma_indent_columns_contains(stops: Seq<TabStop>, v: usize)
    ensures
        indent_columns(stops).contains(v) <==> exists|i: int| 0 <= i < stops.len() && stop_indent_columns(#[trigger] stops[i]).contains(v),
    decreases stops.len(),
{
    if stops.len() > 0 {
        let init = stops.drop_last();
        lemma_indent_columns_contains(init, v);
        let head = indent_columns(init);
        let tail = stop_indent_columns(stops.last());
        let all = head + tail;
        if all.contains(v) {
            let k = choose|k: int| 0 <= k < all.len() && all[k] == v;
            if k < head.len() {
                assert(head[k] == v);
                assert(head.contains(v));
                let i = choose|i: int| 0 <= i < init.len() && stop_indent_columns(#[trigger] init[i]).contains(v);
                assert(stops[i] == init[i]);
            } else {
                assert(tail[k - head.len()] == v);
                assert(tail.contains(v));
                assert(stops[stops.len() - 1] == stops.last());
            }
        }
        if exists|i: int| 0 <= i < stops.len() && stop_indent_columns(#[trigger] stops[i]).contains(v) {
            let i = choose|i: int| 0 <= i < stops.len() && stop_indent_columns(#[trigger] stops[i]).contains(v);
            if i < stops.len() - 1 {
                assert(init[i] == stops[i]);
                assert(head.contains(v));
                let k = choose|k: int| 0 <= k < head.len() && head[k] == v;
                assert(all[k] == v);
            } else {
                assert(tail.contains(v));
                let k = choose|k: int| 0 <= k < tail.len() && tail[k] == v;
                assert(all[head.len() + k] == v);
            }
        }
    }
}

/// The indentation columns of the editor's tab stops are exactly these: for
/// each stop, its column `x`; `x + 2` when its open character is `(` and
/// `x + 1` for every other character; and its argument column when it has
/// one (0 included).
pub proof fn lemma_indent_columns_table(stops: Seq<TabStop>, v: usize)
    requires
        tab_stops_fit(stops),
    ensures
        indent_columns(stops).contains(v) <==> exists|i: int| 0 <= i < stops.len() && {
            let stop = #[trigger] stops[i];
            ||| v == stop.x
            ||| v == stop.x + (if stop.ch == 0x28 { 2int } else { 1int })
            ||| stop.arg_x == Some(v)
        },
{
    lemma_indent_columns_contains(stops, v);
    assert forall|i: int| 0 <= i < stops.len() implies (stop_indent_columns(#[trigger] stops[i]).contains(v) <==> {
        let stop = stops[i];
        ||| v == stop.x
        ||| v == stop.x + (if stop.ch == 0x28 { 2int } else { 1int })
        ||| stop.arg_x == Some(v)
    }) by {
        let stop = stops[i];
        let cols = stop_indent_columns(stop);
        assert(cols[0] == stop.x);
        assert(cols[1] == stop.x + (if stop.ch == 0x28 { 2int } else { 1int }));
        if stop.arg_x is Some {
            assert(cols[2] == stop.arg_x->0);
        }
        if cols.contains(v) {
            let k = choose|k: int| 0 <= k < cols.len() && cols[k] == v;
        }
    }
}

/// A paren trail's decoration is `[line_no, start, end]` with its visual
/// columns turned into byte columns of its line.
pub proof fn lemma_decoration_of_trail(lines: Seq<Seq<char>>, trail: ParenTrail)
    ensures
        ({
            let line = lines[trail.line_no as int];
            decoration_of(lines, trail) == seq![
                trail.line_no,
                spec_charpos_to_bytepos(line, str_byte_len(line) as int, trail.start_x) as usize,
                spec_charpos_to_bytepos(line, str_byte_len(line) as int, trail.end_x) as usize,
            ]
        }),
{
}

/// The paren trails on lines `top` to `bottom`, in order.
pub open spec fn trails_in_rows(trails: Seq<ParenTrail>, top: usize, bottom: usize) -> Seq<ParenTrail> {
    trails.filter(|t: ParenTrail| top <= t.line_no && t.line_no <= bottom)
}

/// The decorations are those of the paren trails on lines `top` to `bottom`,
/// in order, one for each: the trails on other lines are left out.
pub proof fn lemma_decorations_are_trails_in_rows(lines: Seq<Seq<char>>, trails: Seq<ParenTrail>, top: usize, bottom: usize)
    ensures
        decorations_of(lines, trails, top, bottom)
            == trails_in_rows(trails, top, bottom).map_values(|t: ParenTrail| decoration_of(lines, t)),
    decreases trails.len(),
{
    reveal(Seq::filter);
    if trails.len() > 0 {
        lemma_decorations_are_trails_in_rows(lines, trails.drop_last(), top, bottom);
        let pred = |t: ParenTrail| top <= t.line_no && t.line_no <= bottom;
        let sub = trails.drop_last().filter(pred);
        assert(trails.filter(pred) == if pred(trails.last()) { sub.push(trails.last()) } else { sub });
        if pred(trails.last()) {
            assert(sub.push(trails.last()).map_values(|t: ParenTrail| decoration_of(lines, t))
                =~= sub.map_values(|t: ParenTrail| decoration_of(lines, t)).push(decoration_of(lines, trails.last())));
        }
    }
}

/// Every decoration lies on a line from `top` to `bottom`, and there are no
/// more decorations than paren trails.
pub proof fn lemma_decorations_in_rows(lines: Seq<Seq<char>>, trails: Seq<ParenTrail>, top: usize, bottom: usize)
    ensures
        decorations_of(lines, trails, top, bottom).len() <= trails.len(),
        forall|k: int| 0 <= k < decorations_of(lines, trails, top, bottom).len()
            ==> top <= (#[trigger] decorations_of(lines, trails, top, bottom)[k])[0] <= bottom,
{
    lemma_decorations_are_trails_in_rows(lines, trails, top, bottom);
    let pred = |t: ParenTrail| top <= t.line_no && t.line_no <= bottom;
    let kept = trails.filter(pred);
    trails.lemma_filter_len(pred);
    assert forall|k: int| 0 <= k < decorations_of(lines, trails, top, bottom).len()
        implies top <= (#[trigger] decorations_of(lines, trails, top, bottom)[k])[0] <= bottom by {
        trails.lemma_filter_pred(pred, k);
        assert(decorations_of(lines, trails, top, bottom)[k] == decoration_of(lines, kept[k]));
    }
}

/// `array` is the tab stop `[line_no, x, ch, arg_x]` that `shift_indent`
/// takes for `stop`, with 0 for no argument column.
pub open spec fn is_stop_array_of(array: [usize; 4], stop: TabStop) -> bool {
    &&& array[0] == stop.line_no
    &&& array[1] == stop.x
    &&& array[2] == stop.ch as usize
    &&& array[3] == match stop.arg_x { Some(a) => a, None => 0usize }
}

/// The indentation columns of the editor's tab stops are the tab columns
/// that `shift_indent` uses for the same stops written as arrays, so
/// indenting picks the column that `shift_indent` picks. Left out: stops
/// whose argument column is `Some(0)`, which indenting counts as a column and
/// the array form cannot tell from no argument.
pub proof fn lemma_indent_matches_shift_indent(stops: Seq<TabStop>, arrays: Seq<[usize; 4]>, x: usize, dir: Direction)
    requires
        arrays.len() == stops.len(),
        forall|i: int| 0 <= i < stops.len() ==> is_stop_array_of(#[trigger] arrays[i], stops[i]),
        forall|i: int| 0 <= i < stops.len() ==> (#[trigger] stops[i]).arg_x != Some(0usize),
    ensures
        indent_columns(stops) == tab_columns(arrays),
        shifted_column(indent_columns(stops), x, dir) == shifted_column(tab_columns(arrays), x, dir),
    decreases stops.len(),
{
    if stops.len() > 0 {
        let n = stops.len() - 1;
        assert forall|i: int| 0 <= i < n implies is_stop_array_of(#[trigger] arrays.drop_last()[i], stops.drop_last()[i]) by {
            assert(arrays.drop_last()[i] == arrays[i] && stops.drop_last()[i] == stops[i]);
        }
        assert forall|i: int| 0 <= i < n implies (#[trigger] stops.drop_last()[i]).arg_x != Some(0usize) by {
            assert(stops.drop_last()[i] == stops[i]);
        }
        lemma_indent_matches_shift_indent(stops.drop_last(), arrays.drop_last(), x, dir);
        assert(is_stop_array_of(arrays[n], stops[n]));
        assert(stops[n].arg_x != Some(0usize));
        assert(stop_indent_columns(stops.last()) =~= stop_columns(arrays.last()));
    }
}

impl EditorState {
    /// The request of the first run on a buffer in `language` with `lines`
    /// and the editor cursor `[line, byte column]`, lines counted from 1.
    pub fn init_request(language: &str, lines: &[String], cursor: [usize; 2]) -> (request: Request)
        requires
            1 <= cursor[0] <= lines@.len(),
        ensures
            is_request_for(
                request,
                language@,
                views_of(lines@),
                (cursor[0] - 1) as usize,
                spec_bytepos_to_charpos(lines@[cursor[0] - 1]@, cursor[1]) as usize,
                None,
            ),
    {
        let position = cursor_to_parinfer(lines, cursor);
        make_request(language, lines, position, None)
    }

    /// The state of a buffer in `language` whose lines were `before`, made
    /// of the answer of its run.
    pub fn from_answer(language: String, before: &[String], answer: Answer) -> (state: EditorState)
        requires
            answer.cursor_line is Some,
            answer.cursor_x is Some,
        ensures
            is_state_of(state, language@, views_of(before@), answer),
    {
        let lines = split_lines(answer.text.as_str());
        let changes = diff_lines(before, lines.as_slice());
        let tab_stops = copy_tab_stops(&answer.tab_stops);
        let cursor_x = answer.cursor_x.unwrap();
        let cursor_line = answer.cursor_line.unwrap();
        EditorState {
            language,
            lines,
            changes,
            cursor_x,
            cursor_line,
            tab_stops,
            paren_trails: answer.paren_trails,
            error: answer.error,
        }
    }

    /// The request of a later run on the buffer, now with `lines` and the
    /// editor cursor `[line, byte column]`, lines counted from 1: the previous
    /// text and cursor are those of this state.
    pub fn refresh_request(&self, lines: &[String], cursor: [usize; 2]) -> (request: Request)
        requires
            1 <= cursor[0] <= lines@.len(),
        ensures
            is_request_for(
                request,
                self.language@,
                views_of(lines@),
                (cursor[0] - 1) as usize,
                spec_bytepos_to_charpos(lines@[cursor[0] - 1]@, cursor[1]) as usize,
                Some((views_of(self.lines@), self.cursor_line, self.cursor_x)),
            ),
    {
        let position = cursor_to_parinfer(lines, cursor);
        let previous = [self.cursor_line, self.cursor_x];
        make_request(self.language.as_str(), lines, position, Some((self.lines.as_slice(), previous)))
    }

    /// Takes in the answer of a later run on the buffer, whose lines were
    /// `before`; the language stays.
    pub fn take_answer(&mut self, before: &[String], answer: Answer)
        requires
            answer.cursor_line is Some,
            answer.cursor_x is Some,
        ensures
            is_state_of(*final(self), old(self).language@, views_of(before@), answer),
    {
        let lines = split_lines(answer.text.as_str());
        self.changes = diff_lines(before, lines.as_slice());
        self.lines = lines;
        self.cursor_x = answer.cursor_x.unwrap();
        self.cursor_line = answer.cursor_line.unwrap();
        self.tab_stops = copy_tab_stops(&answer.tab_stops);
        self.paren_trails = answer.paren_trails;
        self.error = answer.error;
    }
}

impl EditorState {
    /// The state after the first run, by `process`, on a buffer in
    /// `language` with `lines` and the editor cursor `[line, byte column]`,
    /// lines counted from 1. `process` must answer every request with a
    /// cursor.
    pub fn init<F: Fn(&Request) -> Answer>(language: String, lines: Vec<String>, cursor: [usize; 2], process: F) -> (state: EditorState)
        requires
            1 <= cursor[0] <= lines@.len(),
            forall|request: &Request| process.requires((request,)),
            forall|request: &Request, answer: Answer| process.ensures((request,), answer) ==> answer.cursor_line is Some && answer.cursor_x is Some,
        ensures
            exists|request: Request, answer: Answer| {
                &&& is_request_for(
                    request,
                    language@,
                    views_of(lines@),
                    (cursor[0] - 1) as usize,
                    spec_bytepos_to_charpos(lines@[cursor[0] - 1]@, cursor[1]) as usize,
                    None,
                )
                &&& process.ensures((&request,), answer)
                &&& is_state_of(state, language@, views_of(lines@), answer)
            },
    {
        let request = EditorState::init_request(language.as_str(), lines.as_slice(), cursor);
        let answer = process(&request);
        EditorState::from_answer(language, lines.as_slice(), answer)
    }

    /// Runs again, by `process`, on the buffer's new `lines` and editor
    /// cursor `[line, byte column]`, lines counted from 1, after the run that
    /// made this state, and keeps the new state. `process` must answer every
    /// request with a cursor.
    pub fn refresh<F: Fn(&Request) -> Answer>(&mut self, lines: Vec<String>, cursor: [usize; 2], process: F)
        requires
            1 <= cursor[0] <= lines@.len(),
            forall|request: &Request| process.requires((request,)),
            forall|request: &Request, answer: Answer| process.ensures((request,), answer) ==> answer.cursor_line is Some && answer.cursor_x is Some,
        ensures
            exists|request: Request, answer: Answer| {
                &&& is_request_for(
                    request,
                    old(self).language@,
                    views_of(lines@),
                    (cursor[0] - 1) as usize,
                    spec_bytepos_to_charpos(lines@[cursor[0] - 1]@, cursor[1]) as usize,
                    Some((views_of(old(self).lines@), old(self).cursor_line, old(self).cursor_x)),
                )
                &&& process.ensures((&request,), answer)
                &&& is_state_of(*final(self), old(self).language@, views_of(lines@), answer)
            },
    {
        let request = self.refresh_request(lines.as_slice(), cursor);
        let answer = process(&request);
        self.take_answer(lines.as_slice(), answer);
    }

    /// The edit that the last run suggests, when lines changed: the new lines
    /// of the changed region, the old region they replace, and the cursor.
    pub fn suggestion(&self) -> (suggestion: Option<Suggestion>)
        requires
            self.cursor_line < self.lines@.len(),
            self.changes matches Some(c) ==> c[2] <= c[3] + 1 && c[3] < self.lines@.len(),
        ensures
            suggestion is Some <==> self.changes is Some,
            suggestion matches Some(s) ==> {
                let c = self.changes->0;
                let line = self.lines@[self.cursor_line as int]@;
                &&& views_of(s.lines@) == views_of(self.lines@).subrange(c[2] as int, c[3] + 1)
                &&& s.cursor@ == seq![
                    (self.cursor_line + 1) as usize,
                    spec_charpos_to_bytepos(line, str_byte_len(line) as int, self.cursor_x) as usize,
                ]
                &&& s.insert_start == c[0]
                &&& s.insert_end == c[1]
            },
    {
        match self.changes {
            Some(c) => {
                let count = self.lines.len();
                assert(self.cursor_line < count);
                let lnum = self.cursor_line + 1;
                let bytepos = charpos_to_bytepos(self.lines[self.cursor_line].as_str(), self.cursor_x);
                let mut lines: Vec<String> = Vec::new();
                let mut i: usize = c[2];
                while i <= c[3]
                    invariant
                        c == self.changes->0,
                        c[2] <= i <= c[3] + 1,
                        c[3] < count,
                        count == self.lines@.len(),
                        views_of(lines@) == views_of(self.lines@).subrange(c[2] as int, i as int),
                    decreases c[3] + 1 - i,
                {
                    let line = self.lines[i].clone();
                    assert(line@ == self.lines@[i as int]@);
                    let ghost before = lines@;
                    lines.push(line);
                    assert(views_of(lines@) =~= views_of(before).push(self.lines@[i as int]@));
                    assert(views_of(lines@) =~= views_of(self.lines@).subrange(c[2] as int, i + 1));
                    i = i + 1;
                }
                let cursor = [lnum, bytepos];
                assert(cursor@ =~= seq![lnum, bytepos]);
                Some(Suggestion { lines, cursor, insert_start: c[0], insert_end: c[1] })
            },
            None => None,
        }
    }
}

impl EditorState {
    /// Indents (or, when `dedent` is `Some(true)`, dedents) the cursor's line
    /// to the next tab column of the buffer, or by two columns when there is
    /// none: the new line, with its leading spaces replaced, and the cursor
    /// `[line, column]` at the new indentation, lines counted from 1.
    pub fn indent(&self, dedent: Option<bool>) -> (res: (String, [usize; 2]))
        requires
            self.cursor_line < self.lines@.len(),
            tab_stops_fit(self.tab_stops@),
        ensures
            ({
                let line = self.lines@[self.cursor_line as int]@;
                let indent = indent_of(line);
                let column = shifted_column(indent_columns(self.tab_stops@), indent as usize, indent_direction(dedent));
                &&& res.0@ == spaces(column) + line.subrange(indent, line.len() as int)
                &&& res.1@ == seq![(self.cursor_line + 1) as usize, column as usize]
            }),
    {
        let count = self.lines.len();
        assert(self.cursor_line < count);
        let chars = chars_of(self.lines[self.cursor_line].as_str());
        let ghost line = self.lines@[self.cursor_line as int]@;
        let mut indent: usize = 0;
        while indent < chars.len() && chars[indent] == ' '
            invariant
                chars@ == line,
                indent <= chars@.len(),
                forall|j: int| 0 <= j < indent ==> chars@[j] == ' ',
            decreases chars@.len() - indent,
        {
            indent = indent + 1;
        }
        assert(is_indent_of(line, indent as int));
        assert(indent_of(line) == indent) by {
            let n = choose|n: int| is_indent_of(line, n);
            if n < indent {
                assert(line[n] == ' ');
            } else if n > indent {
                assert(line[indent as int] == ' ');
            }
        }
        let mut tabs: Vec<usize> = Vec::new();
        let mut i: usize = 0;
        while i < self.tab_stops.len()
            invariant
                i <= self.tab_stops@.len(),
                tab_stops_fit(self.tab_stops@),
                tabs@ == indent_columns(self.tab_stops@.take(i as int)),
            decreases self.tab_stops@.len() - i,
        {
            let stop = &self.tab_stops[i];
            assert(self.tab_stops@[i as int] == *stop);
            tabs.push(stop.x);
            tabs.push(stop.x + if stop.ch == 0x28 { 2 } else { 1 });
            match stop.arg_x {
                Some(a) => tabs.push(a),
                None => {},
            }
            proof {
                assert(self.tab_stops@.take(i + 1).drop_last() =~= self.tab_stops@.take(i as int));
                assert(self.tab_stops@.take(i + 1).last() == *stop);
                assert(tabs@ =~= indent_columns(self.tab_stops@.take(i as int)) + stop_indent_columns(*stop));
            }
            i = i + 1;
        }
        assert(self.tab_stops@.take(self.tab_stops@.len() as int) =~= self.tab_stops@);
        let dir = match dedent {
            Some(true) => Direction::Backward,
            _ => Direction::Forward,
        };
        let column = shift_to_tab(&tabs, &dir, indent);
        let mut new_line = String::new();
        let mut k: usize = 0;
        while k < column
            invariant
                k <= column,
                new_line@ == spaces(k as int),
            decreases column - k,
        {
            push_char(&mut new_line, ' ');
            assert(new_line@ =~= spaces(k + 1));
            k = k + 1;
        }
        let mut j: usize = indent;
        while j < chars.len()
            invariant
                indent <= j <= chars@.len(),
                chars@ == line,
                new_line@ == spaces(column as int) + line.subrange(indent as int, j as int),
            decreases chars@.len() - j,
        {
            push_char(&mut new_line, chars[j]);
            assert(new_line@ =~= spaces(column as int) + line.subrange(indent as int, j + 1));
            j = j + 1;
        }
        let cursor = [self.cursor_line + 1, column];
        assert(cursor@ =~= seq![(self.cursor_line + 1) as usize, column]);
        (new_line, cursor)
    }

    /// The paren trails on lines `top` to `bottom`, in order, as
    /// `[line_no, start, end]` with byte columns of their lines.
    pub fn decorations(&self, top: usize, bottom: usize) -> (decorations: Vec<[usize; 3]>)
        requires
            forall|i: int| 0 <= i < self.paren_trails@.len() && in_rows(#[trigger] self.paren_trails@[i], top, bottom)
                ==> self.paren_trails@[i].line_no < self.lines@.len(),
        ensures
            decorations@.map_values(|d: [usize; 3]| d@) == decorations_of(views_of(self.lines@), self.paren_trails@, top, bottom),
    {
        let mut out: Vec<[usize; 3]> = Vec::new();
        let mut i: usize = 0;
        while i < self.paren_trails.len()
            invariant
                i <= self.paren_trails@.len(),
                forall|k: int| 0 <= k < self.paren_trails@.len() && in_rows(#[trigger] self.paren_trails@[k], top, bottom)
                    ==> self.paren_trails@[k].line_no < self.lines@.len(),
                out@.map_values(|d: [usize; 3]| d@) == decorations_of(views_of(self.lines@), self.paren_trails@.take(i as int), top, bottom),
            decreases self.paren_trails@.len() - i,
        {
            let t = &self.paren_trails[i];
            let ghost before = out@;
            proof {
                assert(self.paren_trails@.take(i + 1).drop_last() =~= self.paren_trails@.take(i as int));
                assert(self.paren_trails@.take(i + 1).last() == *t);
            }
            if top <= t.line_no && t.line_no <= bottom {
                assert(in_rows(self.paren_trails@[i as int], top, bottom));
                let line = self.lines[t.line_no].as_str();
                let start = charpos_to_bytepos(line, t.start_x);
                let end = charpos_to_bytepos(line, t.end_x);
                let d = [t.line_no, start, end];
                out.push(d);
                assert(d@ =~= decoration_of(views_of(self.lines@), *t));
                assert(out@.map_values(|d: [usize; 3]| d@) =~= before.map_values(|d: [usize; 3]| d@).push(d@));
            }
            i = i + 1;
        }
        assert(self.paren_trails@.take(self.paren_trails@.len() as int) =~= self.paren_trails@);
        out
    }
}

} // verus!
