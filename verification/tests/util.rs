use gee::color::{hex2ascii, hex2ascii_bg};

fn text(cs: &[char]) -> String {
    cs.iter().collect()
}

#[test]
fn hextest1() {
    assert_eq!(text(&hex2ascii(0x123456)), "\x1b[38;2;18;52;86m");
}

#[test]
fn hextest_bg() {
    assert_eq!(text(&hex2ascii_bg(0xabcdef)), "\x1b[48;2;171;205;239m");
}

#[test]
fn hex_extremes() {
    assert_eq!(text(&hex2ascii(0x000000)), "\x1b[38;2;0;0;0m");
    assert_eq!(text(&hex2ascii_bg(0xffffff)), "\x1b[48;2;255;255;255m");
    assert_eq!(text(&hex2ascii(0x0a6409)), "\x1b[38;2;10;100;9m");
}
