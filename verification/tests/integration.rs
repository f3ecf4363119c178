use parinfer_nvim::integration::{shift_indent, Direction};

#[test]
fn test_shift_indent() {
    // 0 1 2 3 4 10
    let tab_stops = [[1, 0, 0x28, 4], [1, 1, 0x28, 2], [1, 2, 0x28, 10]];
    assert_eq!(shift_indent(&tab_stops, &Direction::Forward, 0), 1);
    assert_eq!(shift_indent(&tab_stops, &Direction::Backward, 0), 0);
    assert_eq!(shift_indent(&tab_stops, &Direction::Backward, 20), 10);
}

use parinfer_nvim::integration::{
    build_request, cursor_to_editor, cursor_to_parinfer, line_changes, read_answer, IntegrationError,
    IntegrationResponse,
};
use parinfer_nvim::types::{Answer, Error, ParenTrail, TabStop};

fn strings(items: &[&str]) -> Vec<String> {
    items.iter().map(|s| s.to_string()).collect()
}

fn sample_answer() -> Answer {
    Answer {
        text: "(\n [{}])".to_string(),
        success: true,
        error: None,
        cursor_x: Some(3),
        cursor_line: Some(1),
        tab_stops: vec![
            TabStop { ch: "(".to_string(), x: 0, line_no: 0, arg_x: None },
            TabStop { ch: "[".to_string(), x: 1, line_no: 1, arg_x: Some(4) },
            TabStop { ch: String::new(), x: 2, line_no: 1, arg_x: None },
        ],
        paren_trails: vec![ParenTrail { line_no: 1, start_x: 4, end_x: 6 }],
    }
}

#[test]
fn integration_shift_moves_and_saturates() {
    let stops = [[0, 3, 0x5b, 0], [1, 8, 0x28, 12]];
    // Tab columns: 3, 4, 8, 10, 12.
    assert_eq!(shift_indent(&stops, &Direction::Forward, 4), 8);
    assert_eq!(shift_indent(&stops, &Direction::Forward, 9), 10);
    assert_eq!(shift_indent(&stops, &Direction::Forward, 12), 14);
    assert_eq!(shift_indent(&stops, &Direction::Backward, 4), 3);
    assert_eq!(shift_indent(&stops, &Direction::Backward, 3), 1);
    assert_eq!(shift_indent(&[], &Direction::Backward, 1), 0);
    assert_eq!(shift_indent(&[], &Direction::Forward, usize::MAX - 1), usize::MAX);
    for x in 0..20 {
        assert!(shift_indent(&stops, &Direction::Forward, x) > x);
        if x > 0 {
            assert!(shift_indent(&stops, &Direction::Backward, x) < x);
        }
    }
}

#[test]
fn integration_direction_from_step() {
    assert!(matches!(Direction::from_step(Some(-1)), Direction::Backward));
    assert!(matches!(Direction::from_step(Some(0)), Direction::Forward));
    assert!(matches!(Direction::from_step(Some(3)), Direction::Forward));
    assert!(matches!(Direction::from_step(None), Direction::Forward));
}

#[test]
fn integration_response_of_answer() {
    let mut answer = sample_answer();
    answer.error = Some(Error { name: "unclosed-paren".to_string(), message: "Unclosed open-paren".to_string(), x: 2, line_no: 1 });
    let response = IntegrationResponse::new(&answer);
    assert_eq!(response.tab_stops, vec![[0, 0, 0x28, 0], [1, 1, 0x5b, 4], [1, 2, 0x28, 0]]);
    assert_eq!(response.paren_trails, vec![[1, 4, 6]]);
    let error = response.error.unwrap();
    assert_eq!(error.name, "unclosed-paren");
    assert_eq!(error.message, "Unclosed open-paren");
    assert_eq!((error.col, error.row), (2, 1));
    let e = Error { name: "n".to_string(), message: "m".to_string(), x: 7, line_no: 9 };
    let converted = IntegrationError::new(&e);
    assert_eq!((converted.name.as_str(), converted.message.as_str(), converted.col, converted.row), ("n", "m", 7, 9));
}

#[test]
fn integration_request_and_answer() {
    let current = (strings(&["(", " [)"]), [1, 2]);
    let request = build_request("clojure", &current, &None);
    assert_eq!(request.mode, "smart");
    assert_eq!(request.text, "(\n [)");
    assert_eq!(request.options.cursor_line, Some(1));
    assert_eq!(request.options.cursor_x, Some(2));
    assert!(request.options.prev_text.is_none());
    let previous = Some((strings(&["(", ")"]), [1, 0]));
    let request = build_request("janet", &current, &previous);
    assert_eq!(request.options.prev_text.as_deref(), Some("(\n)"));
    assert_eq!(request.options.prev_cursor_line, Some(1));
    assert_eq!(request.options.prev_cursor_x, Some(0));
    assert_eq!(request.options.comment_char, '#');

    let (response, (lines, cursor)) = read_answer(&sample_answer());
    assert_eq!(lines, strings(&["(", " [{}])"]));
    assert_eq!(cursor, [1, 3]);
    assert_eq!(response.paren_trails, vec![[1, 4, 6]]);
}

#[test]
fn integration_cursor_conversions() {
    let lines = strings(&["ｗｏa", "åbc"]);
    assert_eq!(cursor_to_parinfer(&lines, [1, 3]), [0, 1]);
    assert_eq!(cursor_to_parinfer(&lines, [2, 2]), [1, 1]);
    assert_eq!(cursor_to_editor(&lines, [0, 1]), [1, 3]);
    assert_eq!(cursor_to_editor(&lines, [1, 5]), [2, 4]);
}

#[test]
fn integration_line_changes() {
    let before = strings(&["(", ")"]);
    let after = strings(&["(", " )"]);
    assert_eq!(line_changes(&before, &after), Some([1, 1, 1, 1]));
    assert_eq!(line_changes(&before, &before), None);
    assert_eq!(line_changes(&strings(&["("]), &strings(&["(", ")"])), Some([1, 0, 1, 1]));
    assert_eq!(line_changes(&strings(&["x", "y"]), &strings(&["z"])), Some([0, 1, 0, 0]));
}

#[test]
fn integration_run_reads_the_engine_answer() {
    let engine = |request: &parinfer_nvim::types::Request| {
        assert_eq!(request.mode, "smart");
        Answer {
            text: format!("{})", request.text),
            success: true,
            error: None,
            cursor_x: Some(0),
            cursor_line: Some(0),
            tab_stops: vec![],
            paren_trails: vec![],
        }
    };
    let current = (strings(&["(", "("]), [1, 1]);
    let (response, (lines, cursor)) = parinfer_nvim::integration::run("hy", &current, &None, engine);
    assert_eq!(lines, strings(&["(", "()"]));
    assert_eq!(cursor, [0, 0]);
    assert!(response.error.is_none());
}

#[test]
fn integration_shift_indent_ignores_stop_order() {
    let stops = [[0, 3, 0x5b, 0], [1, 8, 0x28, 12], [2, 1, 0x28, 0]];
    let reordered = [[2, 1, 0x28, 0], [0, 3, 0x5b, 0], [1, 8, 0x28, 12], [0, 3, 0x5b, 0]];
    for x in 0..16 {
        for dir in [Direction::Forward, Direction::Backward] {
            assert_eq!(shift_indent(&stops, &dir, x), shift_indent(&reordered, &dir, x));
        }
    }
}
