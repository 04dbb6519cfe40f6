use scalelab_rs::text::{is_blank, is_whitespace};

#[test]
fn whitespace_is_the_unicode_white_space_property() {
    for code in 0u32..=0x10FFFF {
        if let Some(c) = char::from_u32(code) {
            assert_eq!(is_whitespace(c), c.is_whitespace(), "U+{code:04X}");
        }
    }
}

#[test]
fn blank_text_trims_to_nothing() {
    for text in ["", " \t\r\n", "\u{a0}\u{3000}", " a ", "x", "\u{200b}"] {
        assert_eq!(is_blank(text), text.trim().is_empty(), "{text:?}");
    }
}
