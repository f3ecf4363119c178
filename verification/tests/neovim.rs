use parinfer_nvim::integration::{shift_indent, Direction};
use parinfer_nvim::neovim::{EditorState, TabStop};
use parinfer_nvim::types::{Answer, ParenTrail, TabStop as AnswerTabStop};

fn strings(items: &[&str]) -> Vec<String> {
    items.iter().map(|s| s.to_string()).collect()
}

fn answer(text: &str, line: usize, x: usize) -> Answer {
    Answer {
        text: text.to_string(),
        success: true,
        error: None,
        cursor_x: Some(x),
        cursor_line: Some(line),
        tab_stops: vec![
            AnswerTabStop { ch: "(".to_string(), x: 0, line_no: 0, arg_x: Some(5) },
            AnswerTabStop { ch: "[".to_string(), x: 1, line_no: 1, arg_x: None },
        ],
        paren_trails: vec![
            ParenTrail { line_no: 0, start_x: 1, end_x: 2 },
            ParenTrail { line_no: 1, start_x: 3, end_x: 5 },
        ],
    }
}

#[test]
fn neovim_tab_stop_from_answer() {
    let t = TabStop::from_answer(&AnswerTabStop { ch: "{".to_string(), x: 4, line_no: 2, arg_x: Some(6) });
    assert_eq!((t.line_no, t.x, t.ch, t.arg_x), (2, 4, b'{', Some(6)));
    let t = TabStop::from_answer(&AnswerTabStop { ch: String::new(), x: 0, line_no: 0, arg_x: None });
    assert_eq!(t.ch, 0x28);
}

#[test]
fn neovim_state_from_answer_and_suggestion() {
    let before = strings(&["(", " [)"]);
    let state = EditorState::from_answer("clojure".to_string(), &before, answer("()\n [])", 1, 2));
    assert_eq!(state.lines, strings(&["()", " [])"]));
    assert_eq!((state.cursor_line, state.cursor_x), (1, 2));
    assert_eq!(state.changes, Some([0, 1, 0, 1]));
    assert_eq!(state.tab_stops.len(), 2);
    let s = state.suggestion().unwrap();
    assert_eq!(s.lines, strings(&["()", " [])"]));
    assert_eq!(s.cursor, [2, 2]);
    assert_eq!((s.insert_start, s.insert_end), (0, 1));

    let same = EditorState::from_answer("clojure".to_string(), &strings(&["()"]), answer("()", 0, 1));
    assert_eq!(same.changes, None);
    assert!(same.suggestion().is_none());
}

#[test]
fn neovim_requests() {
    let lines = strings(&["(", "ｗ[)"]);
    let request = EditorState::init_request("racket", &lines, [2, 3]);
    assert_eq!(request.text, "(\nｗ[)");
    assert_eq!(request.options.cursor_line, Some(1));
    assert_eq!(request.options.cursor_x, Some(1));
    assert!(request.options.scheme_sexp_comments);
    assert!(request.options.prev_text.is_none());

    let state = EditorState::from_answer("racket".to_string(), &lines, answer("()\nｗ[])", 1, 2));
    let request = state.refresh_request(&strings(&["()", "ｗ[])x"]), [2, 6]);
    assert_eq!(request.options.prev_text.as_deref(), Some("()\nｗ[])"));
    assert_eq!(request.options.prev_cursor_line, Some(1));
    assert_eq!(request.options.prev_cursor_x, Some(2));
    assert_eq!(request.options.cursor_line, Some(1));
    assert_eq!(request.options.cursor_x, Some(4));
    assert!(request.options.guile_block_comments);
}

#[test]
fn neovim_refresh_replaces_state() {
    let mut state = EditorState::from_answer("janet".to_string(), &strings(&["("]), answer("()", 0, 1));
    state.take_answer(&strings(&["()", "("]), answer("()\n()", 1, 1));
    assert_eq!(state.language, "janet");
    assert_eq!(state.lines, strings(&["()", "()"]));
    assert_eq!(state.changes, Some([1, 1, 1, 1]));
    assert_eq!((state.cursor_line, state.cursor_x), (1, 1));
}

#[test]
fn neovim_indent_and_dedent() {
    let state = EditorState::from_answer("clojure".to_string(), &strings(&["(a", "   b)"]), answer("(a\n   b)", 1, 3));
    // Indentation columns: 0, 2, 5 from `(` and 1, 2 from `[`.
    assert_eq!(state.indent(None), ("     b)".to_string(), [2, 5]));
    assert_eq!(state.indent(Some(false)), ("     b)".to_string(), [2, 5]));
    assert_eq!(state.indent(Some(true)), ("  b)".to_string(), [2, 2]));
    let far = EditorState::from_answer("clojure".to_string(), &strings(&["(a", "      b)"]), answer("(a\n      b)", 1, 6));
    assert_eq!(far.indent(None), ("        b)".to_string(), [2, 8]));
    assert_eq!(far.indent(Some(true)), ("     b)".to_string(), [2, 5]));
}

#[test]
fn neovim_decorations() {
    let state = EditorState::from_answer("clojure".to_string(), &strings(&["()"]), answer("(ｗ)\n [ｗ)])", 1, 1));
    assert_eq!(state.decorations(0, 1), vec![[0, 1, 4], [1, 5, 7]]);
    assert_eq!(state.decorations(1, 1), vec![[1, 5, 7]]);
    assert_eq!(state.decorations(2, 3), Vec::<[usize; 3]>::new());
}

#[test]
fn neovim_init_and_refresh_run_the_engine() {
    let engine = |request: &parinfer_nvim::types::Request| {
        // Closes the open paren of the first line and keeps the cursor.
        let mut text = request.text.clone();
        if text.starts_with('(') && !text.contains(')') {
            text.insert(1, ')');
        }
        Answer {
            text,
            success: true,
            error: None,
            cursor_x: request.options.cursor_x,
            cursor_line: request.options.cursor_line,
            tab_stops: vec![],
            paren_trails: vec![],
        }
    };
    let mut state = EditorState::init("clojure".to_string(), strings(&["(", "a"]), [1, 1], engine);
    assert_eq!(state.lines, strings(&["()", "a"]));
    assert_eq!(state.changes, Some([0, 0, 0, 0]));
    assert_eq!((state.cursor_line, state.cursor_x), (0, 1));
    state.refresh(strings(&["()", "ab"]), [2, 2], engine);
    assert_eq!(state.lines, strings(&["()", "ab"]));
    assert_eq!(state.changes, None);
    assert_eq!((state.cursor_line, state.cursor_x), (1, 2));
    assert_eq!(state.language, "clojure");
}

#[test]
fn neovim_indent_agrees_with_shift_indent() {
    let state = EditorState::from_answer("clojure".to_string(), &strings(&["(a", "   b)"]), answer("(a\n   b)", 1, 3));
    let stops: Vec<[usize; 4]> = state
        .tab_stops
        .iter()
        .map(|s| [s.line_no, s.x, s.ch as usize, s.arg_x.unwrap_or(0)])
        .collect();
    assert_eq!(state.indent(None).1[1], shift_indent(&stops, &Direction::Forward, 3));
    assert_eq!(state.indent(Some(true)).1[1], shift_indent(&stops, &Direction::Backward, 3));
}

#[test]
fn neovim_added_lines_are_suggested() {
    // The run only appends a line after the old ones.
    let state = EditorState::from_answer("clojure".to_string(), &strings(&["(a"]), answer("(a\n)", 1, 0));
    assert_eq!(state.changes, Some([1, 0, 1, 1]));
    let s = state.suggestion().unwrap();
    assert_eq!(s.lines, strings(&[")"]));
    assert_eq!((s.insert_start, s.insert_end), (1, 0));
}
