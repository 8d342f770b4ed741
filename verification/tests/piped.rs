use minisort::input::{join_lines, trim_whitespace};

fn doc(lines: &[&str]) -> Vec<String> {
    lines.iter().map(|l| l.to_string()).collect()
}

#[test]
fn joins_lines_with_newlines() {
    assert_eq!(join_lines(&doc(&["a", "b", "c"])), "a\nb\nc");
    assert_eq!(join_lines(&doc(&["solo"])), "solo");
    assert_eq!(join_lines(&Vec::new()), "");
}

#[test]
fn trims_surrounding_whitespace() {
    assert_eq!(trim_whitespace(&"  path  ".to_string()), "path");
    assert_eq!(trim_whitespace(&"\t\npath\r\n".to_string()), "path");
    assert_eq!(trim_whitespace(&"path".to_string()), "path");
    assert_eq!(trim_whitespace(&"   ".to_string()), "");
    assert_eq!(trim_whitespace(&"".to_string()), "");
    assert_eq!(trim_whitespace(&"a b".to_string()), "a b");
    assert_eq!(trim_whitespace(&"\u{3000}wide\u{2028}".to_string()), "wide");
}

#[test]
fn piped_lines_become_a_trimmed_path() {
    let piped = doc(&["  /tmp/input.txt  "]);
    assert_eq!(trim_whitespace(&join_lines(&piped)), "/tmp/input.txt");
}
