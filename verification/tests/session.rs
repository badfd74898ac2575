use gee::keys::Key;
use gee::session::{finish_step, on_key, open_view};
use gee::syntax::Grammar;

fn chars(s: &str) -> Vec<char> {
    s.chars().collect()
}

fn text(cs: &[char]) -> String {
    cs.iter().collect()
}

#[test]
fn opening_reports_what_was_loaded() {
    let g = Grammar::plain();
    let v = open_view(&g, vec![chars("a"), chars("b")], None, 80, 24);
    assert_eq!(text(&v.endline), "Loaded 2L of Plaintext");
    assert!(v.status.saved);
    assert_eq!(v.hlcache, vec![0, 0]);
    assert_eq!(v.line_hl.len(), 2);
    let e = open_view(&g, vec![], None, 80, 24);
    assert_eq!(text(&e.endline), "Loaded 0L of Plaintext");
    assert_eq!(e.line_hl.len(), 1);
}

#[test]
fn key_step_scrolls_and_reports_scope() {
    let g = Grammar::plain();
    let lines: Vec<Vec<char>> = (0..10).map(|i| chars(&format!("line {i}"))).collect();
    let mut v = open_view(&g, lines, None, 6, 4);
    for _ in 0..5 {
        let _ = on_key(&mut v, &g, Key::Down, 6, 4);
    }
    let scope = on_key(&mut v, &g, Key::Ctrl('e'), 6, 4);
    assert_eq!(scope, "text.plain");
    assert_eq!((v.cursor_x, v.cursor_y), (6, 5));
    assert_eq!(v.offset, 3);
    assert_eq!(v.offcol, 1);
    assert_eq!(v.recompute, 6);
}

#[test]
fn save_then_quit() {
    let g = Grammar::plain();
    let mut v = open_view(&g, vec![chars("a")], None, 40, 5);
    let s = on_key(&mut v, &g, Key::Char('b'), 40, 5);
    assert!(!finish_step(&mut v, s, &chars("f.txt")));
    assert!(!v.status.saved);
    assert_eq!(text(&v.endline), "text.plain");
    let s = on_key(&mut v, &g, Key::Ctrl('z'), 40, 5);
    assert!(v.status.save && v.status.quit);
    assert!(finish_step(&mut v, s, &chars("f.txt")));
    assert!(v.status.saved);
    assert!(!v.status.save);
}

#[test]
fn unsaved_quit_is_refused() {
    let g = Grammar::plain();
    let mut v = open_view(&g, vec![chars("a")], None, 40, 5);
    let s = on_key(&mut v, &g, Key::Char('b'), 40, 5);
    assert!(!finish_step(&mut v, s, &chars("f.txt")));
    let _ = on_key(&mut v, &g, Key::Ctrl('x'), 40, 5);
    let s = on_key(&mut v, &g, Key::Ctrl('c'), 40, 5);
    assert!(!finish_step(&mut v, s, &chars("f.txt")));
    assert_eq!(text(&v.endline), "f.txt not saved | text.plain");
    assert!(!v.status.quit);
    let _ = on_key(&mut v, &g, Key::Ctrl('x'), 40, 5);
    let s = on_key(&mut v, &g, Key::Ctrl('s'), 40, 5);
    assert!(!finish_step(&mut v, s, &chars("f.txt")));
    assert_eq!(text(&v.endline), "Wrote to f.txt | text.plain");
    assert!(v.status.saved);
}

#[test]
fn selecting_is_shown() {
    let g = Grammar::plain();
    let mut v = open_view(&g, vec![chars("abc")], None, 40, 5);
    let s = on_key(&mut v, &g, Key::Ctrl(' '), 40, 5);
    assert!(!finish_step(&mut v, s, &chars("f")));
    assert_eq!(text(&v.endline), "Selecting | text.plain");
}
