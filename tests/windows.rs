use lg_desktop::text::{parse_i32, parse_u32};
use lg_desktop::windows::{parse_desktop_size, parse_focused, parse_window_list};

fn chars(s: &str) -> Vec<char> {
    s.chars().collect()
}

#[test]
fn window_listing_is_parsed() {
    let text = "0x01 0 10 20 300 400 host My Editor  - file.rs\nshort line\n0x02 1 -5 x 7 8 host T\n";
    let w = parse_window_list(text);
    assert_eq!(w.len(), 2);
    assert_eq!(w[0].0, "0x01");
    assert_eq!((w[0].1.x, w[0].1.y, w[0].1.w, w[0].1.h), (10, 20, 300, 400));
    assert_eq!(w[0].2, "My Editor - file.rs");
    assert_eq!((w[1].1.x, w[1].1.y, w[1].1.w, w[1].1.h), (-5, 0, 7, 8));
    assert_eq!(w[1].2, "T");
    assert!(parse_window_list("").is_empty());
}

#[test]
fn desktop_size_is_parsed() {
    assert_eq!(parse_desktop_size("_NET_DESKTOP_GEOMETRY(CARDINAL) = 1920, 1080\n"), Some((1920, 1080)));
    assert_eq!(parse_desktop_size("no equals here"), None);
    assert_eq!(parse_desktop_size("X = 1920"), None);
    assert_eq!(parse_desktop_size("X = 1, 2, 3"), None);
    assert_eq!(parse_desktop_size("X = a, 5, 6"), Some((5, 6)));
}

#[test]
fn focused_window_is_trimmed() {
    assert_eq!(parse_focused("  12345\n"), "12345");
    assert_eq!(parse_focused(""), "");
}

#[test]
fn integer_parsing() {
    assert_eq!(parse_u32(&chars("4294967295")), Some(u32::MAX));
    assert_eq!(parse_u32(&chars("4294967296")), None);
    assert_eq!(parse_u32(&chars("+12")), Some(12));
    assert_eq!(parse_u32(&chars("-1")), None);
    assert_eq!(parse_i32(&chars("-2147483648")), Some(i32::MIN));
    assert_eq!(parse_i32(&chars("2147483648")), None);
    assert_eq!(parse_i32(&chars("-0")), Some(0));
}
