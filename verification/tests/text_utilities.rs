use static_blog::text::{is_whitespace, trim_text};

#[test]
fn whitespace_matches_char_is_whitespace_everywhere() {
    for code in 0u32..=0x10FFFF {
        if let Some(c) = char::from_u32(code) {
            assert_eq!(is_whitespace(c), c.is_whitespace(), "code point {:#x}", code);
        }
    }
}

#[test]
fn trim_text_matches_str_trim() {
    assert_eq!(trim_text(" a"), "a");
    assert_eq!(trim_text("\u{3000}\t a b \u{2028}\r\n"), "a b");
    assert_eq!(trim_text("\u{200b}x\u{200b}"), "\u{200b}x\u{200b}");
    assert_eq!(trim_text("   "), "");
    assert_eq!(trim_text(""), "");
}
