use gee::cache::{scope_from_runs, update_scope_status};
use gee::editor::View;
use gee::hl::{fg_for_scope, render_line_segment, Theme};
use gee::screen::{clamp, frame, goto};
use gee::session::open_view;
use gee::syntax::Grammar;

const FG: &str = "\x1b[38;2;1;1;1m";
const TY: &str = "\x1b[38;2;3;3;3m";
const KW: &str = "\x1b[38;2;4;4;4m";
const CO: &str = "\x1b[38;2;5;5;5m";
const FU: &str = "\x1b[38;2;6;6;6m";
const CM: &str = "\x1b[38;2;7;7;7m";
const BGD: &str = "\x1b[48;2;0;0;0m";
const BGA: &str = "\x1b[48;2;2;2;2m";

fn theme() -> Theme {
    Theme::from_colors(0x010101, 0x030303, 0x040404, 0x050505, 0x060606, 0x070707, 0x000000, 0x020202)
}

fn chars(s: &str) -> Vec<char> {
    s.chars().collect()
}

fn text(cs: &[char]) -> String {
    cs.iter().collect()
}

fn view_of(lines: &[&str], w: usize, h: usize) -> View {
    let g = Grammar::plain();
    open_view(&g, lines.iter().map(|l| chars(l)).collect(), None, w, h)
}

#[test]
fn goto_escape() {
    assert_eq!(text(&goto(12, 5)), "\x1b[12;5H");
    assert_eq!(text(&goto(1, 1)), "\x1b[1;1H");
    assert_eq!(text(&goto(65535, 100)), "\x1b[65535;100H");
}

#[test]
fn clamp_scrolls_down_and_right() {
    let mut v = view_of(&["a"], 10, 5);
    v.cursor_y = 10;
    v.cursor_x = 15;
    clamp(&mut v);
    assert_eq!(v.offset, 7);
    assert_eq!(v.offcol, 6);
    clamp(&mut v);
    assert_eq!((v.offset, v.offcol), (7, 6));
}

#[test]
fn clamp_scrolls_up_and_left() {
    let mut v = view_of(&["a"], 10, 5);
    v.offset = 5;
    v.offcol = 8;
    v.cursor_y = 2;
    v.cursor_x = 3;
    clamp(&mut v);
    assert_eq!((v.offset, v.offcol), (2, 3));
}

#[test]
fn clamp_keeps_visible_cursor() {
    let mut v = view_of(&["a"], 10, 5);
    v.offset = 1;
    v.offcol = 2;
    v.cursor_y = 4;
    v.cursor_x = 11;
    clamp(&mut v);
    assert_eq!((v.offset, v.offcol), (1, 2));
}

#[test]
fn frame_of_one_line() {
    let mut v = view_of(&["ab"], 4, 2);
    v.cursor_x = 1;
    let got = text(&frame(&v, &theme()));
    let want = String::new()
        + "\x1b[?25l" + "\x1b[1;1H" + BGD + FG
        + "\x1b[1;1H" + BGA + FG + BGA + FG + "ab" + BGA + FG + BGA + "  "
        + "\x1b[2;1H" + BGD + FG + "Load"
        + "\x1b[?25h" + "\x1b[1;2H";
    assert_eq!(got, want);
}

#[test]
fn frame_with_selection_and_blank_rows() {
    let mut v = view_of(&["ab"], 4, 3);
    v.cursor_x = 1;
    v.status.selecting = true;
    v.mark = (0, 0);
    v.endline = chars("ok");
    let got = text(&frame(&v, &theme()));
    let want = String::new()
        + "\x1b[?25l" + "\x1b[1;1H" + BGD + FG
        + "\x1b[1;1H" + BGA + FG
        + "\x1b[7m" + BGA + FG + "a" + BGA + FG + "\x1b[27m"
        + BGA + FG + BGA + FG + "b" + BGA + FG + BGA + "  "
        + "\x1b[2;1H" + BGD + FG + "    "
        + "\x1b[3;1H" + BGD + FG + "ok" + "  "
        + "\x1b[?25h" + "\x1b[1;2H";
    assert_eq!(got, want);
}

#[test]
fn segment_painted_by_runs() {
    let t = theme();
    let mut screen: Vec<char> = Vec::new();
    let runs = vec![((0usize, 2usize), "keyword.other".to_string())];
    render_line_segment(&mut screen, &chars("let x"), &runs, 0, 5, &chars(BGD), &t);
    let want = String::new() + BGD + KW + "let" + FG + " x" + BGD + FG;
    assert_eq!(text(&screen), want);
    let mut empty: Vec<char> = Vec::new();
    render_line_segment(&mut empty, &chars("let x"), &runs, 3, 3, &chars(BGD), &t);
    assert!(empty.is_empty());
}

#[test]
fn scope_colours() {
    let t = theme();
    assert_eq!(text(fg_for_scope("comment.line.double-slash", &t)), CM);
    assert_eq!(text(fg_for_scope("entity.name.function.rust", &t)), FU);
    assert_eq!(text(fg_for_scope("storage.type.rust", &t)), TY);
    assert_eq!(text(fg_for_scope("string.quoted.double", &t)), CO);
    assert_eq!(text(fg_for_scope("keyword.control", &t)), KW);
    assert_eq!(text(fg_for_scope("source.rust", &t)), FG);
    assert_eq!(text(fg_for_scope("comment.keyword", &t)), CM);
}

#[test]
fn scope_of_last_covering_run() {
    let runs = vec![((0usize, 3usize), "a".to_string()), ((2usize, 5usize), "b".to_string())];
    assert_eq!(scope_from_runs(&runs, 2, "d".to_string()), "b");
    assert_eq!(scope_from_runs(&runs, 1, "d".to_string()), "a");
    assert_eq!(scope_from_runs(&runs, 5, "d".to_string()), "b");
    assert_eq!(scope_from_runs(&runs, 9, "d".to_string()), "d");
}

#[test]
fn status_line_with_prefix() {
    let mut v = view_of(&["a"], 10, 5);
    update_scope_status(&mut v, Some("Wrote to f".to_string()), "text.plain".to_string());
    assert_eq!(text(&v.endline), "Wrote to f | text.plain");
    update_scope_status(&mut v, Some(String::new()), "x".to_string());
    assert_eq!(text(&v.endline), "x");
    update_scope_status(&mut v, None, "y".to_string());
    assert_eq!(text(&v.endline), "y");
}
