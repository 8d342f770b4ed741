use minisort::split::split_content_by_lines;

fn doc(lines: &[&str]) -> Vec<String> {
    lines.iter().map(|l| l.to_string()).collect()
}

#[test]
fn splits_on_newlines() {
    let lines = split_content_by_lines("a\nbc\nd".to_string());
    assert_eq!(lines, doc(&["a", "bc", "d"]));
}

#[test]
fn trailing_newline_adds_no_line() {
    let lines = split_content_by_lines("a\nb\n".to_string());
    assert_eq!(lines, doc(&["a", "b"]));
}

#[test]
fn empty_content_has_no_lines() {
    let lines = split_content_by_lines(String::new());
    assert_eq!(lines, Vec::<String>::new());
}

#[test]
fn keeps_empty_lines_between_newlines() {
    let lines = split_content_by_lines("a\n\nb".to_string());
    assert_eq!(lines, doc(&["a", "", "b"]));
}

#[test]
fn strips_carriage_return_before_newline() {
    let lines = split_content_by_lines("a\r\nb\r\n".to_string());
    assert_eq!(lines, doc(&["a", "b"]));
}

#[test]
fn keeps_carriage_return_without_newline() {
    let lines = split_content_by_lines("a\r".to_string());
    assert_eq!(lines, doc(&["a\r"]));
}
