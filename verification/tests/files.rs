use gee::lines::{join_lines_exec, read_lines};

fn chars(s: &str) -> Vec<char> {
    s.chars().collect()
}

fn read(s: &str) -> Vec<String> {
    read_lines(&chars(s)).iter().map(|l| l.iter().collect()).collect()
}

fn save(lines: &[&str]) -> String {
    let ls: Vec<Vec<char>> = lines.iter().map(|l| chars(l)).collect();
    join_lines_exec(&ls).iter().collect()
}

#[test]
fn tabs_become_four_spaces_on_read() {
    assert_eq!(read("a\tb\n\tc"), vec!["a    b", "    c"]);
}

#[test]
fn final_newline_ends_last_line() {
    assert_eq!(read("one\ntwo\n"), vec!["one", "two"]);
    assert_eq!(read("one\ntwo"), vec!["one", "two"]);
    assert_eq!(read("one\n\n"), vec!["one", ""]);
}

#[test]
fn crlf_line_ends() {
    assert_eq!(read("a\r\nb\r\n"), vec!["a", "b"]);
    assert_eq!(read("a\rb"), vec!["a\rb"]);
    assert_eq!(read("a\r"), vec!["a\r"]);
    assert_eq!(read("a\r\nb\r"), vec!["a", "b\r"]);
}

#[test]
fn empty_file_has_no_lines() {
    assert_eq!(read(""), Vec::<String>::new());
    assert_eq!(read("\n"), vec![""]);
}

#[test]
fn save_joins_with_newlines() {
    assert_eq!(save(&["a", "", "b"]), "a\n\nb");
    assert_eq!(save(&[]), "");
    assert_eq!(save(&["x"]), "x");
}

#[test]
fn save_then_read_round_trip() {
    let lines = ["fn main() {", "    let x = 1;", "", "}"];
    let text = save(&lines);
    assert_eq!(read(&text), lines.to_vec());
}
