//! The parinfer options that suit each Lisp dialect.

use vstd::prelude::*;
use crate::text::{chars_equal, chars_of, contains_chars, find_chars, string_of_char, views_of};
use crate::types::Options;

verus! {

/// The families of dialects whose syntax the options tell apart.
#[derive(PartialEq, Eq, Structural)]
pub enum Dialect {
    Hy,
    Yuck,
    Janet,
    Lisp,
    Scheme,
    Other,
}

/// The dialect family of a language name, decided in this order: `hy`,
/// `yuck`, `janet`, any name that contains `lisp`, then `racket`, `scheme`,
/// `chicken` and `query`; every other name, `clojure` and `fennel` among
/// them, has the default syntax.
pub open spec fn dialect_of(lang: Seq<char>) -> Dialect {
    if lang == seq!['h', 'y'] {
        Dialect::Hy
    } else if lang == seq!['y', 'u', 'c', 'k'] {
        Dialect::Yuck
    } else if lang == seq!['j', 'a', 'n', 'e', 't'] {
        Dialect::Janet
    } else if contains_chars(lang, seq!['l', 'i', 's', 'p']) {
        Dialect::Lisp
    } else if lang == seq!['r', 'a', 'c', 'k', 'e', 't'] || lang == seq!['s', 'c', 'h', 'e', 'm', 'e']
        || lang == seq!['c', 'h', 'i', 'c', 'k', 'e', 'n'] || lang == seq!['q', 'u', 'e', 'r', 'y'] {
        Dialect::Scheme
    } else {
        Dialect::Other
    }
}

/// The string delimiters of a dialect family: the double quote, and for
/// `yuck` also the single quote and the backtick.
pub open spec fn string_delimiters_of(dialect: Dialect) -> Seq<Seq<char>> {
    if dialect == Dialect::Yuck {
        seq![seq!['"'], seq!['\''], seq!['`']]
    } else {
        seq![seq!['"']]
    }
}

/// The options carry the comment character, the string delimiters and the
/// syntax switches of the dialect family of `lang`: `#` comments and long
/// strings for `janet`, `;` comments otherwise; vertical-bar symbols and block
/// comments for the `lisp` and Scheme families, with Guile block comments and
/// datum comments for the Scheme family; bracket strings for `hy`.
pub open spec fn has_dialect_syntax(options: Options, lang: Seq<char>) -> bool {
    let dialect = dialect_of(lang);
    &&& options.comment_char == if dialect == Dialect::Janet { '#' } else { ';' }
    &&& views_of(options.string_delimiters@) == string_delimiters_of(dialect)
    &&& options.lisp_vline_symbols == (dialect == Dialect::Lisp || dialect == Dialect::Scheme)
    &&& options.lisp_block_comments == (dialect == Dialect::Lisp || dialect == Dialect::Scheme)
    &&& options.guile_block_comments == (dialect == Dialect::Scheme)
    &&& options.scheme_sexp_comments == (dialect == Dialect::Scheme)
    &&& options.janet_long_strings == (dialect == Dialect::Janet)
    &&& options.hy_bracket_strings == (dialect == Dialect::Hy)
}

/// Decides the dialect family of a language name.
pub fn dialect_kind(lang: &str) -> (dialect: Dialect)
    ensures
        dialect == dialect_of(lang@),
{
    let name = chars_of(lang);
    if chars_equal(name.as_slice(), &['h', 'y']) {
        assert(['h', 'y']@ =~= seq!['h', 'y']);
        Dialect::Hy
    } else if chars_equal(name.as_slice(), &['y', 'u', 'c', 'k']) {
        assert(['h', 'y']@ =~= seq!['h', 'y']);
        assert(['y', 'u', 'c', 'k']@ =~= seq!['y', 'u', 'c', 'k']);
        Dialect::Yuck
    } else if chars_equal(name.as_slice(), &['j', 'a', 'n', 'e', 't']) {
        assert(['h', 'y']@ =~= seq!['h', 'y']);
        assert(['y', 'u', 'c', 'k']@ =~= seq!['y', 'u', 'c', 'k']);
        assert(['j', 'a', 'n', 'e', 't']@ =~= seq!['j', 'a', 'n', 'e', 't']);
        Dialect::Janet
    } else {
        assert(['h', 'y']@ =~= seq!['h', 'y']);
        assert(['y', 'u', 'c', 'k']@ =~= seq!['y', 'u', 'c', 'k']);
        assert(['j', 'a', 'n', 'e', 't']@ =~= seq!['j', 'a', 'n', 'e', 't']);
        assert(['l', 'i', 's', 'p']@ =~= seq!['l', 'i', 's', 'p']);
        assert(['r', 'a', 'c', 'k', 'e', 't']@ =~= seq!['r', 'a', 'c', 'k', 'e', 't']);
        assert(['s', 'c', 'h', 'e', 'm', 'e']@ =~= seq!['s', 'c', 'h', 'e', 'm', 'e']);
        assert(['c', 'h', 'i', 'c', 'k', 'e', 'n']@ =~= seq!['c', 'h', 'i', 'c', 'k', 'e', 'n']);
        assert(['q', 'u', 'e', 'r', 'y']@ =~= seq!['q', 'u', 'e', 'r', 'y']);
        if find_chars(name.as_slice(), &['l', 'i', 's', 'p']) {
            Dialect::Lisp
        } else if chars_equal(name.as_slice(), &['r', 'a', 'c', 'k', 'e', 't'])
            || chars_equal(name.as_slice(), &['s', 'c', 'h', 'e', 'm', 'e'])
            || chars_equal(name.as_slice(), &['c', 'h', 'i', 'c', 'k', 'e', 'n'])
            || chars_equal(name.as_slice(), &['q', 'u', 'e', 'r', 'y']) {
            Dialect::Scheme
        } else {
            Dialect::Other
        }
    }
}

/// The parinfer options for a language: no cursor, previous text, selection
/// or changes; the comment character, the string delimiters and the syntax
/// switches of the language's dialect family.
pub fn dialect_options(lang: &str) -> (options: Options)
    ensures
        options.cursor_line is None,
        options.cursor_x is None,
        options.prev_cursor_x is None,
        options.prev_cursor_line is None,
        options.prev_text is None,
        options.selection_start_line is None,
        options.changes@.len() == 0,
        has_dialect_syntax(options, lang@),
{
    let mut string_delimiters: Vec<String> = Vec::new();
    string_delimiters.push(string_of_char('"'));
    let mut options = Options {
        cursor_line: None,
        cursor_x: None,
        prev_cursor_x: None,
        prev_cursor_line: None,
        prev_text: None,
        selection_start_line: None,
        changes: Vec::new(),
        comment_char: ';',
        lisp_vline_symbols: false,
        lisp_block_comments: false,
        guile_block_comments: false,
        scheme_sexp_comments: false,
        janet_long_strings: false,
        hy_bracket_strings: false,
        string_delimiters,
    };
    match dialect_kind(lang) {
        Dialect::Hy => options.hy_bracket_strings = true,
        Dialect::Yuck => {
            options.string_delimiters.push(string_of_char('\''));
            options.string_delimiters.push(string_of_char('`'));
        },
        Dialect::Janet => {
            options.comment_char = '#';
            options.janet_long_strings = true;
        },
        Dialect::Lisp => {
            options.lisp_vline_symbols = true;
            options.lisp_block_comments = true;
        },
        Dialect::Scheme => {
            options.lisp_vline_symbols = true;
            options.lisp_block_comments = true;
            options.scheme_sexp_comments = true;
            options.guile_block_comments = true;
        },
        Dialect::Other => (),
    }
    assert(views_of(options.string_delimiters@) =~= string_delimiters_of(dialect_of(lang@)));
    options
}

/// A name in which no character is `l` does not contain `lisp`.
proof fn lemma_no_l_no_lisp(lang: Seq<char>)
    requires
        forall|i: int| 0 <= i < lang.len() ==> lang[i] != 'l',
    ensures
        !contains_chars(lang, seq!['l', 'i', 's', 'p']),
        !exists|i: int| 0 <= i && i + 4 <= lang.len() && #[trigger] lang.subrange(i, i + 4) == seq!['l', 'i', 's', 'p'],
{
    let pattern = seq!['l', 'i', 's', 'p'];
    assert forall|i: int| 0 <= i && i + 4 <= lang.len() implies #[trigger] lang.subrange(i, i + 4) != pattern by {
        assert(lang.subrange(i, i + 4)[0] == lang[i]);
        assert(pattern[0] == 'l');
    }
    assert(pattern.len() == 4);
}

/// What the options of a language name are, name by name: comments start
/// with `#` for `janet` and with `;` for every other name; long strings only
/// for `janet`, bracket strings only for `hy`; the single and back quotes
/// delimit strings besides the double quote only for `yuck`; datum comments
/// and Guile block comments exactly for `racket`, `scheme`, `chicken` and
/// `query`; vertical-bar symbols and block comments for those four and for
/// every name in which `lisp` occurs.
pub proof fn lemma_dialect_syntax_by_name(options: Options, lang: Seq<char>)
    requires
        has_dialect_syntax(options, lang),
    ensures
        options.comment_char == (if lang == seq!['j', 'a', 'n', 'e', 't'] { '#' } else { ';' }),
        options.janet_long_strings == (lang == seq!['j', 'a', 'n', 'e', 't']),
        options.hy_bracket_strings == (lang == seq!['h', 'y']),
        views_of(options.string_delimiters@) == (if lang == seq!['y', 'u', 'c', 'k'] {
            seq![seq!['"'], seq!['\''], seq!['`']]
        } else {
            seq![seq!['"']]
        }),
        options.scheme_sexp_comments == (lang == seq!['r', 'a', 'c', 'k', 'e', 't'] || lang == seq!['s', 'c', 'h', 'e', 'm', 'e']
            || lang == seq!['c', 'h', 'i', 'c', 'k', 'e', 'n'] || lang == seq!['q', 'u', 'e', 'r', 'y']),
        options.guile_block_comments == options.scheme_sexp_comments,
        options.lisp_vline_symbols == (options.scheme_sexp_comments
            || exists|i: int| 0 <= i && i + 4 <= lang.len() && #[trigger] lang.subrange(i, i + 4) == seq!['l', 'i', 's', 'p']),
        options.lisp_block_comments == options.lisp_vline_symbols,
{
    let hy = seq!['h', 'y'];
    let yuck = seq!['y', 'u', 'c', 'k'];
    let janet = seq!['j', 'a', 'n', 'e', 't'];
    let racket = seq!['r', 'a', 'c', 'k', 'e', 't'];
    let scheme = seq!['s', 'c', 'h', 'e', 'm', 'e'];
    let chicken = seq!['c', 'h', 'i', 'c', 'k', 'e', 'n'];
    let query = seq!['q', 'u', 'e', 'r', 'y'];
    assert(yuck != hy && janet != hy && janet != yuck);
    assert(scheme[0] != racket[0] && chicken[0] != racket[0] && query[0] != racket[0]);
    assert(chicken[0] != scheme[0] && query[0] != scheme[0] && query[0] != chicken[0]);
    assert(racket != hy && racket != yuck && racket != janet);
    assert(scheme != hy && scheme != yuck && scheme != janet);
    assert(chicken != hy && chicken != yuck && chicken != janet);
    assert(query != hy && query != yuck && query != janet) by {
        assert(query[0] != janet[0]);
    }
    if lang == hy || lang == yuck || lang == janet || lang == racket || lang == scheme || lang == chicken || lang == query {
        assert forall|i: int| 0 <= i < lang.len() implies lang[i] != 'l' by {
            if lang == hy {
                assert(i == 0 || i == 1);
            } else if lang == yuck {
                assert(0 <= i < 4);
            }
        }
        lemma_no_l_no_lisp(lang);
    } else {
        let pattern = seq!['l', 'i', 's', 'p'];
        assert(pattern.len() == 4);
        if contains_chars(lang, pattern) {
            let i = choose|i: int| 0 <= i && i + pattern.len() <= lang.len() && #[trigger] lang.subrange(i, i + pattern.len()) == pattern;
            assert(lang.subrange(i, i + 4) == pattern);
        }
        if exists|i: int| 0 <= i && i + 4 <= lang.len() && #[trigger] lang.subrange(i, i + 4) == pattern {
            let i = choose|i: int| 0 <= i && i + 4 <= lang.len() && #[trigger] lang.subrange(i, i + 4) == pattern;
            assert(lang.subrange(i, i + pattern.len()) == pattern);
        }
    }
}

} // verus!
