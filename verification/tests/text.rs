use parinfer_nvim::text::{join_lines, split_lines};

fn strings(items: &[&str]) -> Vec<String> {
    items.iter().map(|s| s.to_string()).collect()
}

#[test]
fn text_split_lines() {
    assert_eq!(split_lines(""), strings(&[""]));
    assert_eq!(split_lines("(\n [)"), strings(&["(", " [)"]));
    assert_eq!(split_lines("a\n\nb\n"), strings(&["a", "", "b", ""]));
    assert_eq!(split_lines("ｗｏ\nå"), strings(&["ｗｏ", "å"]));
}

#[test]
fn text_join_lines() {
    assert_eq!(join_lines(&strings(&[])), "");
    assert_eq!(join_lines(&strings(&["(", " [)"])), "(\n [)");
    assert_eq!(join_lines(&strings(&["", ""])), "\n");
}

#[test]
fn text_split_join_roundtrips() {
    for text in ["", "\n", "(\n [{\n}])", "a\n\nb\n", "ｗ"] {
        assert_eq!(join_lines(&split_lines(text)), text);
    }
    for lines in [strings(&[""]), strings(&["(", " []", ""]), strings(&["a", "b"])] {
        assert_eq!(split_lines(&join_lines(&lines)), lines);
    }
}
