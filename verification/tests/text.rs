use url_finder::text::{
    char_is_below, chars_lt, is_strippable, is_whitespace, same_text, slice_of, starts_with,
    str_lt, strip, to_chars, trim, Strip,
};

fn chars(s: &str) -> Vec<char> {
    s.chars().collect()
}

#[test]
fn whitespace_is_what_std_calls_whitespace() {
    let mut code: u32 = 0;
    while code <= 0x11000 {
        if let Some(c) = char::from_u32(code) {
            assert_eq!(is_whitespace(c), c.is_whitespace(), "U+{:04X}", code);
        }
        code += 1;
    }
    assert!(!is_whitespace('\u{10FFFF}'));
}

#[test]
fn strippable_characters() {
    assert!(is_strippable(Strip::Space, ' '));
    assert!(is_strippable(Strip::Space, '\n'));
    assert!(!is_strippable(Strip::Space, '"'));
    assert!(is_strippable(Strip::Quote, '"'));
    assert!(!is_strippable(Strip::Quote, ' '));
    assert!(!is_strippable(Strip::Quote, '\''));
}

#[test]
fn trim_agrees_with_std() {
    let samples = [
        "",
        " ",
        "a",
        "  a  ",
        "\t\n a b \r\n",
        "\u{a0}x\u{2003}",
        "\u{3000}\u{85}title\u{1680}\u{2028}",
        "no-space",
        " \u{200b}zero width stays ",
        "inner  space",
        "   ",
    ];
    for s in samples {
        assert_eq!(trim(s), s.trim(), "{:?}", s);
    }
}

#[test]
fn strip_removes_from_both_ends_only() {
    assert_eq!(strip(&chars("\"\"a\"b\"\""), Strip::Quote), chars("a\"b"));
    assert_eq!(strip(&chars("\"\"\""), Strip::Quote), chars(""));
    assert_eq!(strip(&chars(" \"a\" "), Strip::Quote), chars(" \"a\" "));
    assert_eq!(strip(&chars(" \"a\" "), Strip::Space), chars("\"a\""));
    assert_eq!(strip(&chars(""), Strip::Space), chars(""));
}

#[test]
fn chars_and_slices() {
    assert_eq!(to_chars("héllo"), vec!['h', 'é', 'l', 'l', 'o']);
    assert_eq!(to_chars(""), Vec::<char>::new());
    let text = chars("abcdef");
    assert_eq!(slice_of(&text, 1, 4), chars("bcd"));
    assert_eq!(slice_of(&text, 0, 6), text);
    assert_eq!(slice_of(&text, 3, 3), chars(""));
}

#[test]
fn prefixes() {
    assert!(starts_with(&chars("mailto:a@b"), "mailto:"));
    assert!(starts_with(&chars("mailto:"), "mailto:"));
    assert!(!starts_with(&chars("mailto"), "mailto:"));
    assert!(!starts_with(&chars("xmailto:"), "mailto:"));
    assert!(starts_with(&chars("anything"), ""));
    assert!(starts_with(&chars(""), ""));
    assert!(!starts_with(&chars(""), "#"));
}

#[test]
fn same_text_is_equality() {
    assert!(same_text("", ""));
    assert!(same_text("example.test", "example.test"));
    assert!(!same_text("example.test", "example.tesu"));
    assert!(!same_text("example.test", "example.tes"));
    assert!(!same_text("a", ""));
    assert!(!same_text("é", "e"));
}

#[test]
fn order_agrees_with_std() {
    let samples = [
        "", "a", "b", "ab", "aa", "A", "a/", "a-", "é", "e", "z", "~", "日本", "日", "\u{10348}",
        "\u{ffff}", "https://a.test/1", "https://a.test/15", "https://a.test/2",
    ];
    for x in samples {
        for y in samples {
            assert_eq!(str_lt(x, y), x < y, "{:?} < {:?}", x, y);
            assert_eq!(chars_lt(&chars(x), &chars(y)), x < y);
        }
    }
    assert!(char_is_below('a', 'b'));
    assert!(!char_is_below('b', 'a'));
    assert!(!char_is_below('a', 'a'));
    assert!(char_is_below('\u{ffff}', '\u{10000}'));
}
