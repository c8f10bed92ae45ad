use substrait_lambda::text::{blank, find_char, starts_with, white_space};

#[test]
fn white_space_agrees_with_std_on_every_char() {
    for code in 0..=0x10ffffu32 {
        if let Some(c) = char::from_u32(code) {
            assert_eq!(white_space(c), c.is_whitespace(), "U+{:04X}", code);
        }
    }
}

#[test]
fn blank_agrees_with_trim() {
    for s in ["", " ", "\t\n", "\u{a0}\u{3000}", " a ", "a", "\u{200b}", " ; "] {
        assert_eq!(blank(s), s.trim().is_empty(), "{:?}", s);
    }
}

#[test]
fn find_char_counts_characters() {
    assert_eq!(find_char("", '|'), None);
    assert_eq!(find_char("abc", '|'), None);
    assert_eq!(find_char("|", '|'), Some(0));
    assert_eq!(find_char("a|b|c", '|'), Some(1));
    assert_eq!(find_char("\u{e9}\u{1f600}|", '|'), Some(2));
}

#[test]
fn starts_with_agrees_with_std() {
    for s in ["", "s", "s3:/", "s3://", "s3://b", "S3://b", " s3://b", "s3:\u{2f}/x", "\u{e9}s3://"] {
        assert_eq!(starts_with(s, "s3://"), s.starts_with("s3://"), "{:?}", s);
    }
    assert!(starts_with("", ""));
    assert!(starts_with("a", ""));
}
