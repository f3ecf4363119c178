use parinfer_nvim::dialect::{dialect_kind, dialect_options, Dialect};

fn delimiters(lang: &str) -> Vec<String> {
    dialect_options(lang).string_delimiters
}

#[test]
fn dialect_hy_has_bracket_strings() {
    let o = dialect_options("hy");
    assert!(o.hy_bracket_strings);
    assert!(!o.lisp_vline_symbols);
    assert_eq!(o.comment_char, ';');
    assert_eq!(delimiters("hy"), vec!["\"".to_string()]);
}

#[test]
fn dialect_yuck_has_three_delimiters() {
    assert_eq!(delimiters("yuck"), vec!["\"".to_string(), "'".to_string(), "`".to_string()]);
    assert!(!dialect_options("yuck").hy_bracket_strings);
}

#[test]
fn dialect_janet_comments_with_hash() {
    let o = dialect_options("janet");
    assert_eq!(o.comment_char, '#');
    assert!(o.janet_long_strings);
    assert!(!o.lisp_block_comments);
}

#[test]
fn dialect_names_with_lisp() {
    for lang in ["lisp", "commonlisp", "emacs-lisp", "lispy"] {
        let o = dialect_options(lang);
        assert!(o.lisp_vline_symbols, "{lang}");
        assert!(o.lisp_block_comments, "{lang}");
        assert!(!o.scheme_sexp_comments, "{lang}");
        assert!(!o.guile_block_comments, "{lang}");
    }
    assert!(matches!(dialect_kind("elisp"), Dialect::Lisp));
}

#[test]
fn dialect_scheme_family() {
    for lang in ["racket", "scheme", "chicken", "query"] {
        let o = dialect_options(lang);
        assert!(o.lisp_vline_symbols && o.lisp_block_comments, "{lang}");
        assert!(o.scheme_sexp_comments && o.guile_block_comments, "{lang}");
        assert_eq!(o.comment_char, ';');
    }
}

#[test]
fn dialect_defaults() {
    for lang in ["clojure", "fennel", "carp", "wast", "", "HY", "lis"] {
        let o = dialect_options(lang);
        assert!(!o.lisp_vline_symbols && !o.lisp_block_comments, "{lang}");
        assert!(!o.scheme_sexp_comments && !o.guile_block_comments, "{lang}");
        assert!(!o.janet_long_strings && !o.hy_bracket_strings, "{lang}");
        assert_eq!(o.comment_char, ';');
        assert_eq!(o.string_delimiters, vec!["\"".to_string()]);
        assert!(o.cursor_line.is_none() && o.cursor_x.is_none());
        assert!(o.prev_text.is_none() && o.prev_cursor_line.is_none() && o.prev_cursor_x.is_none());
        assert!(o.selection_start_line.is_none() && o.changes.is_empty());
    }
}
