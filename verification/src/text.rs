//! Characters of strings, and splitting a text into lines and joining lines
//! into a text.

use vstd::prelude::*;

verus! {

broadcast use vstd::string::group_string_axioms;

/// Calls `String::push`. Trusted: as std documents, the character is appended
/// at the end of the string.
#[verifier::external_body]
pub(crate) fn push_char(s: &mut String, c: char)
    ensures
        final(s)@ == old(s)@.push(c),
{
    s.push(c)
}

/// The characters of a string.
pub(crate) fn chars_of(s: &str) -> (chars: Vec<char>)
    ensures
        chars@ == s@,
{
    let mut chars: Vec<char> = Vec::new();
    for c in it: s.chars()
        invariant
            chars@ == it.seq().take(it.index()),
    {
        chars.push(c);
    }
    chars
}

/// A string holding one character.
pub(crate) fn string_of_char(c: char) -> (s: String)
    ensures
        s@ == seq![c],
{
    let mut s = String::new();
    push_char(&mut s, c);
    assert(s@ =~= seq![c]);
    s
}

/// A string holding the given characters.
pub(crate) fn string_from_chars(chars: &[char]) -> (s: String)
    ensures
        s@ == chars@,
{
    let mut s = String::new();
    let mut i: usize = 0;
    while i < chars.len()
        invariant
            i <= chars@.len(),
            s@ == chars@.take(i as int),
        decreases chars@.len() - i,
    {
        push_char(&mut s, chars[i]);
        assert(chars@.take(i + 1) =~= chars@.take(i as int).push(chars@[i as int]));
        i = i + 1;
    }
    assert(chars@.take(chars@.len() as int) =~= chars@);
    s
}

/// Whether two character sequences are equal.
pub(crate) fn chars_equal(a: &[char], b: &[char]) -> (same: bool)
    ensures
        same == (a@ == b@),
{
    if a.len() != b.len() {
        return false;
    }
    let mut i: usize = 0;
    while i < a.len()
        invariant
            a@.len() == b@.len(),
            i <= a@.len(),
            forall|j: int| 0 <= j < i ==> a@[j] == b@[j],
        decreases a@.len() - i,
    {
        if a[i] != b[i] {
            return false;
        }
        i = i + 1;
    }
    assert(a@ =~= b@);
    true
}

/// `pattern` occurs in `s`.
pub open spec fn contains_chars(s: Seq<char>, pattern: Seq<char>) -> bool {
    exists|i: int| 0 <= i && i + pattern.len() <= s.len() && #[trigger] s.subrange(i, i + pattern.len()) == pattern
}

/// Whether `pattern` occurs in `s`.
pub(crate) fn find_chars(s: &[char], pattern: &[char]) -> (found: bool)
    ensures
        found == contains_chars(s@, pattern@),
{
    if pattern.len() > s.len() {
        return false;
    }
    let last_start = s.len() - pattern.len();
    let mut i: usize = 0;
    while i <= last_start
        invariant
            last_start + pattern@.len() == s@.len(),
            s@.len() <= usize::MAX,
            i <= last_start + 1,
            forall|k: int| 0 <= k < i ==> #[trigger] s@.subrange(k, k + pattern@.len()) != pattern@,
        decreases last_start + 1 - i,
    {
        let mut j: usize = 0;
        let mut matching = true;
        while matching && j < pattern.len()
            invariant
                i <= last_start,
                last_start + pattern@.len() == s@.len(),
                s@.len() <= usize::MAX,
                j <= pattern@.len(),
                forall|t: int| 0 <= t < j ==> s@[i + t] == pattern@[t],
                !matching ==> j < pattern@.len() && s@[i + j] != pattern@[j as int],
            decreases pattern@.len() - j + if matching { 1int } else { 0int },
        {
            if s[i + j] == pattern[j] {
                j = j + 1;
            } else {
                matching = false;
            }
        }
        if matching {
            assert(s@.subrange(i as int, i + pattern@.len()) =~= pattern@);
            return true;
        }
        assert(s@.subrange(i as int, i + pattern@.len())[j as int] != pattern@[j as int]);
        i = i + 1;
    }
    assert forall|k: int| 0 <= k && k + pattern@.len() <= s@.len() implies #[trigger] s@.subrange(k, k + pattern@.len()) != pattern@ by {
        assert(k < i);
    }
    false
}

/// The views of a sequence of strings.
pub open spec fn views_of(strings: Seq<String>) -> Seq<Seq<char>> {
    strings.map_values(|s: String| s@)
}

/// The lines of a text: the pieces between newline characters, so that a text
/// with `n` newlines has `n + 1` lines and the empty text has one empty line.
pub open spec fn split_lines_spec(text: Seq<char>) -> Seq<Seq<char>>
    decreases text.len(),
{
    if text.len() == 0 {
        seq![Seq::<char>::empty()]
    } else {
        let init = split_lines_spec(text.drop_last());
        if text.last() == '\n' {
            init.push(Seq::<char>::empty())
        } else {
            init.update(init.len() - 1, init.last().push(text.last()))
        }
    }
}

/// The text made of lines put one after the other with a newline between two
/// neighbours.
pub open spec fn join_lines_spec(lines: Seq<Seq<char>>) -> Seq<char>
    decreases lines.len(),
{
    if lines.len() == 0 {
        Seq::<char>::empty()
    } else if lines.len() == 1 {
        lines[0]
    } else {
        join_lines_spec(lines.drop_last()) + seq!['\n'] + lines.last()
    }
}

/// Every text has at least one line.
pub proof fn lemma_split_nonempty(text: Seq<char>)
    ensures
        split_lines_spec(text).len() >= 1,
    decreases text.len(),
{
    if text.len() > 0 {
        lemma_split_nonempty(text.drop_last());
    }
}

/// Splits a text at its newline characters.
pub fn split_lines(text: &str) -> (lines: Vec<String>)
    ensures
        views_of(lines@) == split_lines_spec(text@),
{
    let chars = chars_of(text);
    let mut lines: Vec<String> = Vec::new();
    let mut current = String::new();
    let mut i: usize = 0;
    while i < chars.len()
        invariant
            i <= chars@.len(),
            chars@ == text@,
            views_of(lines@).push(current@) == split_lines_spec(chars@.take(i as int)),
        decreases chars@.len() - i,
    {
        let c = chars[i];
        let ghost prefix = chars@.take(i as int);
        proof {
            assert(chars@.take(i + 1).drop_last() =~= prefix);
            lemma_split_nonempty(prefix);
        }
        if c == '\n' {
            let mut done = String::new();
            std::mem::swap(&mut done, &mut current);
            lines.push(done);
            assert(views_of(lines@).push(current@) =~= split_lines_spec(prefix).push(Seq::<char>::empty()));
        } else {
            let ghost before = current@;
            push_char(&mut current, c);
            assert(views_of(lines@).push(current@) =~= split_lines_spec(prefix).update(
                split_lines_spec(prefix).len() - 1,
                before.push(c),
            ));
        }
        i = i + 1;
    }
    assert(chars@.take(chars@.len() as int) =~= text@);
    lines.push(current);
    assert(views_of(lines@) =~= split_lines_spec(text@));
    lines
}

/// Joins lines into one text with a newline between two neighbours.
pub fn join_lines(lines: &[String]) -> (text: String)
    ensures
        text@ == join_lines_spec(views_of(lines@)),
{
    let mut text = String::new();
    let mut i: usize = 0;
    while i < lines.len()
        invariant
            i <= lines@.len(),
            text@ == join_lines_spec(views_of(lines@).take(i as int)),
        decreases lines@.len() - i,
    {
        let ghost prev = text@;
        if i > 0 {
            push_char(&mut text, '\n');
        }
        text.append(lines[i].as_str());
        proof {
            let v = views_of(lines@);
            assert(v.take(i + 1).drop_last() =~= v.take(i as int));
            if i == 0 {
                assert(text@ =~= v.take(1)[0]);
            } else {
                assert(text@ =~= prev + seq!['\n'] + v.take(i + 1).last());
            }
        }
        i = i + 1;
    }
    assert(views_of(lines@).take(lines@.len() as int) =~= views_of(lines@));
    text
}

/// No line of a text holds a newline, and a text has one line more than it
/// has newlines.
pub proof fn lemma_split_lines_no_newline(text: Seq<char>)
    ensures
        forall|i: int| 0 <= i < split_lines_spec(text).len() ==> !(#[trigger] split_lines_spec(text)[i]).contains('\n'),
        split_lines_spec(text).len() == text.filter(|c: char| c == '\n').len() + 1,
    decreases text.len(),
{
    reveal(Seq::filter);
    if text.len() > 0 {
        let init_text = text.drop_last();
        lemma_split_lines_no_newline(init_text);
        lemma_split_nonempty(init_text);
        let init = split_lines_spec(init_text);
        let lines = split_lines_spec(text);
        assert forall|i: int| 0 <= i < lines.len() implies !(#[trigger] lines[i]).contains('\n') by {
            if text.last() == '\n' {
                if i < init.len() {
                    assert(lines[i] == init[i]);
                } else {
                    assert(lines[i] == Seq::<char>::empty());
                }
            } else if i < init.len() - 1 {
                assert(lines[i] == init[i]);
            } else {
                assert(lines[i] == init.last().push(text.last()));
                assert(init.last() == init[init.len() - 1]);
                if lines[i].contains('\n') {
                    let k = choose|k: int| 0 <= k < lines[i].len() && lines[i][k] == '\n';
                    if k < init.last().len() {
                        assert(init.last()[k] == '\n');
                        assert(init.last().contains('\n'));
                    }
                }
            }
        }
    }
}

/// Joining one more line appends a newline and that line, and a single line
/// joins to itself.
pub proof fn lemma_join_lines_push(lines: Seq<Seq<char>>, line: Seq<char>)
    ensures
        join_lines_spec(seq![line]) == line,
        lines.len() > 0 ==> join_lines_spec(lines.push(line)) == join_lines_spec(lines) + seq!['\n'] + line,
{
    if lines.len() > 0 {
        assert(lines.push(line).drop_last() =~= lines);
    }
}

/// Appending to the last line of a non-empty list of lines appends to the
/// joined text.
proof fn lemma_join_extend_last(lines: Seq<Seq<char>>, tail: Seq<char>)
    requires
        lines.len() >= 1,
    ensures
        join_lines_spec(lines.update(lines.len() - 1, lines.last() + tail))
            == join_lines_spec(lines) + tail,
{
    let updated = lines.update(lines.len() - 1, lines.last() + tail);
    if lines.len() == 1 {
        assert(updated[0] == lines[0] + tail);
    } else {
        assert(updated.drop_last() =~= lines.drop_last());
        assert(join_lines_spec(updated) =~= join_lines_spec(lines) + tail);
    }
}

/// Splitting a text into lines and joining them gives the text back.
pub proof fn lemma_join_split(text: Seq<char>)
    ensures
        join_lines_spec(split_lines_spec(text)) == text,
    decreases text.len(),
{
    if text.len() > 0 {
        let init_text = text.drop_last();
        let init = split_lines_spec(init_text);
        lemma_join_split(init_text);
        lemma_split_nonempty(init_text);
        if text.last() == '\n' {
            let pushed = init.push(Seq::<char>::empty());
            assert(pushed.drop_last() =~= init);
            assert(join_lines_spec(pushed) =~= text);
        } else {
            lemma_join_extend_last(init, seq![text.last()]);
            assert(init.last().push(text.last()) =~= init.last() + seq![text.last()]);
            assert(init_text + seq![text.last()] =~= text);
        }
    }
}

/// Text without a newline extends the last line of whatever precedes it.
proof fn lemma_split_append_plain(prefix: Seq<char>, tail: Seq<char>)
    requires
        !tail.contains('\n'),
    ensures
        split_lines_spec(prefix + tail) == split_lines_spec(prefix).update(
            split_lines_spec(prefix).len() - 1,
            split_lines_spec(prefix).last() + tail,
        ),
    decreases tail.len(),
{
    lemma_split_nonempty(prefix);
    let sp = split_lines_spec(prefix);
    if tail.len() == 0 {
        assert(prefix + tail =~= prefix);
        assert(sp.update(sp.len() - 1, sp.last() + tail) =~= sp);
    } else {
        let shorter = tail.drop_last();
        assert(!shorter.contains('\n')) by {
            if shorter.contains('\n') {
                let k = choose|k: int| 0 <= k < shorter.len() && shorter[k] == '\n';
                assert(tail[k] == '\n');
            }
        }
        lemma_split_append_plain(prefix, shorter);
        let whole = prefix + tail;
        assert(whole.drop_last() =~= prefix + shorter);
        assert(whole.last() == tail.last());
        assert(tail.last() != '\n') by {
            assert(tail[tail.len() - 1] == tail.last());
        }
        assert(split_lines_spec(whole) =~= sp.update(sp.len() - 1, sp.last() + tail)) by {
            assert((sp.last() + shorter).push(tail.last()) =~= sp.last() + tail);
        }
    }
}

/// Joining lines that hold no newline and splitting the text gives the lines
/// back.
pub proof fn lemma_split_join(lines: Seq<Seq<char>>)
    requires
        lines.len() >= 1,
        forall|i: int| 0 <= i < lines.len() ==> !(#[trigger] lines[i]).contains('\n'),
    ensures
        split_lines_spec(join_lines_spec(lines)) == lines,
    decreases lines.len(),
{
    if lines.len() == 1 {
        lemma_split_append_plain(Seq::<char>::empty(), lines[0]);
        assert(Seq::<char>::empty() + lines[0] =~= lines[0]);
        assert(split_lines_spec(join_lines_spec(lines)) =~= lines);
    } else {
        let init = lines.drop_last();
        assert forall|i: int| 0 <= i < init.len() implies !(#[trigger] init[i]).contains('\n') by {
            assert(init[i] == lines[i]);
        }
        lemma_split_join(init);
        let head = join_lines_spec(init) + seq!['\n'];
        assert(head.drop_last() =~= join_lines_spec(init));
        assert(head.last() == '\n');
        assert(split_lines_spec(head) == init.push(Seq::<char>::empty()));
        assert(!lines.last().contains('\n')) by {
            assert(lines[lines.len() - 1] == lines.last());
        }
        lemma_split_append_plain(head, lines.last());
        assert(split_lines_spec(join_lines_spec(lines)) =~= lines) by {
            assert(join_lines_spec(lines) == head + lines.last());
            assert(Seq::<char>::empty() + lines.last() =~= lines.last());
        }
    }
}

} // verus!
