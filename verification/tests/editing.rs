use gee::editor::{buf_insert_lines, buf_kill_lines, View};
use gee::keys::{key, Key};
use gee::session::open_view;
use gee::syntax::Grammar;

fn chars(s: &str) -> Vec<char> {
    s.chars().collect()
}

fn view_of(lines: &[&str]) -> View {
    let g = Grammar::plain();
    open_view(&g, lines.iter().map(|l| chars(l)).collect(), None, 80, 24)
}

fn lines(v: &View) -> Vec<String> {
    v.bufvec.iter().map(|l| l.iter().collect()).collect()
}

fn kill_text(v: &View) -> String {
    v.kill.iter().collect()
}

fn type_str(v: &mut View, s: &str) {
    for c in s.chars() {
        key(Key::Char(c), v);
    }
}

#[test]
fn typing_into_empty_buffer() {
    let mut v = view_of(&[]);
    type_str(&mut v, "ab");
    assert_eq!(lines(&v), vec!["ab"]);
    assert_eq!((v.cursor_x, v.cursor_y), (2, 0));
    assert!(!v.status.saved);
}

#[test]
fn tab_is_four_spaces_and_backspace_removes_them() {
    let mut v = view_of(&["x"]);
    key(Key::Char('\t'), &mut v);
    assert_eq!(lines(&v), vec!["    x"]);
    assert_eq!(v.cursor_x, 4);
    key(Key::Backspace, &mut v);
    assert_eq!(lines(&v), vec!["x"]);
    assert_eq!(v.cursor_x, 0);
}

#[test]
fn type_then_backspace_restores_line() {
    let mut v = view_of(&["hello"]);
    v.cursor_x = 2;
    key(Key::Char('z'), &mut v);
    assert_eq!(lines(&v), vec!["hezllo"]);
    key(Key::Backspace, &mut v);
    assert_eq!(lines(&v), vec!["hello"]);
}

#[test]
fn brace_completion_and_indented_newline() {
    let mut v = view_of(&[""]);
    key(Key::Char('{'), &mut v);
    assert_eq!(lines(&v), vec!["{}"]);
    assert_eq!(v.cursor_x, 1);
    key(Key::Char('\n'), &mut v);
    assert_eq!(lines(&v), vec!["{", "    ", "}"]);
    assert_eq!((v.cursor_x, v.cursor_y), (4, 1));
}

#[test]
fn newline_keeps_indent() {
    let mut v = view_of(&["    foo"]);
    v.cursor_x = 7;
    key(Key::Char('\r'), &mut v);
    assert_eq!(lines(&v), vec!["    foo", "    "]);
    assert_eq!((v.cursor_x, v.cursor_y), (4, 1));
}

#[test]
fn newline_keeps_any_indent() {
    let mut v = view_of(&["  ab"]);
    v.cursor_x = 4;
    key(Key::Char('\n'), &mut v);
    assert_eq!(lines(&v), vec!["  ab", "  "]);
    assert_eq!((v.cursor_x, v.cursor_y), (2, 1));
    assert!(!v.status.saved);
    let mut w = view_of(&["      x{}"]);
    w.cursor_x = 8;
    key(Key::Char('\n'), &mut w);
    assert_eq!(lines(&w), vec!["      x{", "          ", "      }"]);
    assert_eq!((w.cursor_x, w.cursor_y), (10, 1));
}

#[test]
fn backspace_at_line_start_joins_lines() {
    let mut v = view_of(&["ab", "cd"]);
    v.cursor_y = 1;
    key(Key::Backspace, &mut v);
    assert_eq!(lines(&v), vec!["abcd"]);
    assert_eq!((v.cursor_x, v.cursor_y), (2, 0));
    assert_eq!(v.hlcache.len(), 1);
}

#[test]
fn delete_forward_joins_next_line() {
    let mut v = view_of(&["ab", "cd"]);
    v.cursor_x = 2;
    key(Key::Ctrl('d'), &mut v);
    assert_eq!(lines(&v), vec!["abcd"]);
    key(Key::Ctrl('d'), &mut v);
    assert_eq!(lines(&v), vec!["abd"]);
}

#[test]
fn line_start_and_end() {
    let mut v = view_of(&["abc"]);
    v.cursor_x = 1;
    key(Key::Ctrl('e'), &mut v);
    assert_eq!(v.cursor_x, 3);
    key(Key::Ctrl('a'), &mut v);
    assert_eq!(v.cursor_x, 0);
}

#[test]
fn vertical_motion_keeps_working_column() {
    let mut v = view_of(&["abcdef", "ab", "abcdef"]);
    v.cursor_x = 5;
    key(Key::Down, &mut v);
    assert_eq!((v.cursor_x, v.cursor_y), (2, 1));
    key(Key::Ctrl('n'), &mut v);
    assert_eq!((v.cursor_x, v.cursor_y), (5, 2));
    key(Key::Up, &mut v);
    key(Key::Ctrl('p'), &mut v);
    assert_eq!((v.cursor_x, v.cursor_y), (5, 0));
    assert_eq!(lines(&v), vec!["abcdef", "ab", "abcdef"]);
}

#[test]
fn left_right_wrap_lines() {
    let mut v = view_of(&["ab", "cd"]);
    v.cursor_x = 2;
    key(Key::Right, &mut v);
    assert_eq!((v.cursor_x, v.cursor_y), (0, 1));
    key(Key::Ctrl('b'), &mut v);
    assert_eq!((v.cursor_x, v.cursor_y), (2, 0));
}

#[test]
fn kill_line_then_yank_restores() {
    let mut v = view_of(&["hello world"]);
    v.cursor_x = 5;
    key(Key::Ctrl('k'), &mut v);
    assert_eq!(lines(&v), vec!["hello"]);
    assert_eq!(kill_text(&v), " world");
    key(Key::Ctrl('y'), &mut v);
    assert_eq!(lines(&v), vec!["hello world"]);
    assert_eq!(v.cursor_x, 11);
}

#[test]
fn select_and_kill_region() {
    let mut v = view_of(&["abc", "def", "ghi"]);
    v.cursor_x = 1;
    key(Key::Null, &mut v);
    assert!(v.status.selecting);
    assert_eq!(v.mark, (1, 0));
    key(Key::Down, &mut v);
    key(Key::Down, &mut v);
    key(Key::Ctrl('w'), &mut v);
    assert_eq!(lines(&v), vec!["ahi"]);
    assert_eq!(kill_text(&v), "bc\ndef\ng");
    assert!(!v.status.selecting);
    assert_eq!((v.cursor_x, v.cursor_y), (1, 0));
    key(Key::Ctrl('y'), &mut v);
    assert_eq!(lines(&v), vec!["abc", "def", "ghi"]);
    assert_eq!((v.cursor_x, v.cursor_y), (1, 2));
    assert_eq!(v.hlcache.len(), 3);
    assert_eq!(v.line_hl.len(), 3);
    assert_eq!(v.recompute, 0);
}

#[test]
fn save_and_quit_chords() {
    let mut v = view_of(&["a"]);
    key(Key::Ctrl('x'), &mut v);
    assert!(v.status.ctrlx);
    key(Key::Ctrl('s'), &mut v);
    assert!(v.status.save);
    assert!(!v.status.ctrlx);
    key(Key::Ctrl('x'), &mut v);
    key(Key::Ctrl('c'), &mut v);
    assert!(v.status.quit);
    let mut w = view_of(&["a"]);
    key(Key::Ctrl('z'), &mut w);
    assert!(w.status.quit && w.status.save);
    let mut f = view_of(&["a"]);
    key(Key::Ctrl('x'), &mut f);
    key(Key::Char('x'), &mut f);
    assert!(f.status.quit && f.status.forcequit);
    assert_eq!(lines(&f), vec!["a"]);
    assert_eq!(lines(&v), vec!["a"]);
}

#[test]
fn insert_multiple_lines() {
    let mut v = view_of(&["ab"]);
    v.cursor_x = 1;
    buf_insert_lines(&mut v, &chars("x\n\ty\nz"));
    assert_eq!(lines(&v), vec!["ax", "    y", "zb"]);
    assert_eq!((v.cursor_x, v.cursor_y), (1, 2));
    assert_eq!(v.hlcache.len(), 3);
    assert!(!v.status.saved);
}

#[test]
fn insert_into_empty_buffer() {
    let mut v = view_of(&[]);
    buf_insert_lines(&mut v, &chars("hi"));
    assert_eq!(lines(&v), vec!["hi"]);
    assert_eq!(v.cursor_x, 2);
}

#[test]
fn kill_backwards_span_across_lines() {
    let mut v = view_of(&["one", "two", "three"]);
    v.cursor_x = 2;
    v.cursor_y = 2;
    buf_kill_lines(&mut v, (1, 0));
    assert_eq!(lines(&v), vec!["oree"]);
    assert_eq!(kill_text(&v), "ne\ntwo\nth");
    assert_eq!((v.cursor_x, v.cursor_y), (1, 0));
    assert_eq!(v.hlcache.len(), 1);
}

#[test]
fn kill_empty_span_clears_kill_buffer() {
    let mut v = view_of(&["abc"]);
    v.kill = chars("old");
    v.cursor_x = 1;
    buf_kill_lines(&mut v, (1, 0));
    assert_eq!(lines(&v), vec!["abc"]);
    assert_eq!(kill_text(&v), "");
}

#[test]
fn trueloc_is_cursor() {
    let mut v = view_of(&["abc", "d"]);
    v.cursor_x = 1;
    v.cursor_y = 1;
    assert_eq!(v.trueloc(), (1, 1));
}

#[test]
fn caches_follow_line_count() {
    let mut v = view_of(&["a{}", "b"]);
    v.recompute = 5;
    v.cursor_x = 2;
    key(Key::Char('\n'), &mut v);
    assert_eq!(v.bufvec.len(), 4);
    assert_eq!(v.hlcache.len(), 4);
    assert_eq!(v.line_hl.len(), 4);
    assert_eq!(v.recompute, 0);
    v.recompute = 3;
    v.cursor_x = 0;
    v.cursor_y = 3;
    key(Key::Backspace, &mut v);
    assert_eq!(v.bufvec.len(), 3);
    assert_eq!(v.hlcache.len(), 3);
    assert_eq!(v.line_hl.len(), 3);
    assert_eq!(v.recompute, 2);
}

#[test]
fn typed_tab_leaves_saved_flag() {
    let mut v = view_of(&["x"]);
    key(Key::Char('\t'), &mut v);
    assert_eq!(lines(&v), vec!["    x"]);
    assert!(v.status.saved);
    key(Key::Char('y'), &mut v);
    assert!(!v.status.saved);
}
