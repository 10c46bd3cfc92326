use dns_templar::text::{chars_of, is_whitespace, normalize_domain, split_lines, trim, trim_trailing_dots};

#[test]
fn trim_takes_off_unicode_whitespace() {
    assert_eq!(trim("  x y \t"), "x y");
    assert_eq!(trim("\u{a0}\u{3000}word\u{2028}"), "word");
    assert_eq!(trim(" \n\r "), "");
    assert_eq!(trim(""), "");
    assert_eq!(trim("abc"), "abc");
}

#[test]
fn whitespace_matches_std() {
    for u in 0u32..0x3100 {
        if let Some(c) = char::from_u32(u) {
            assert_eq!(is_whitespace(c), c.is_whitespace(), "{:?}", c);
        }
    }
}

#[test]
fn trim_matches_std() {
    for s in ["", " ", "  a  ", "\tb\r\n", "\u{85}x\u{85}", "a b", "\u{2003}"] {
        assert_eq!(trim(s), s.trim());
    }
}

#[test]
fn lines_match_std() {
    for s in ["", "\n", "a", "a\n", "a\r\nb\n\nc", "a\r", "a\rb\n", "\r\n\r\n", "x\n\ny\n"] {
        let mine = split_lines(s);
        let std: Vec<String> = s.lines().map(|l| l.to_string()).collect();
        assert_eq!(mine, std, "{:?}", s);
    }
}

#[test]
fn chars_are_listed_in_order() {
    assert_eq!(chars_of("héllo"), vec!['h', 'é', 'l', 'l', 'o']);
}

#[test]
fn trailing_dots_are_stripped() {
    assert_eq!(trim_trailing_dots("example.com."), "example.com");
    assert_eq!(trim_trailing_dots("example.com..."), "example.com");
    assert_eq!(trim_trailing_dots("..."), "");
    assert_eq!(trim_trailing_dots(".a"), ".a");
}

#[test]
fn domains_are_normalized() {
    assert_eq!(normalize_domain("ExAmple.COM."), "example.com");
    assert_eq!(normalize_domain("BÜCHER.de"), "bücher.de");
    assert_eq!(normalize_domain(""), "");
}
