use murmur::text;

#[test]
fn whitespace_is_what_std_takes_for_it() {
    for n in 0u32..=0x10ffff {
        if let Some(c) = char::from_u32(n) {
            assert_eq!(text::is_whitespace(c), c.is_whitespace(), "{n:#x}");
        }
    }
}

#[test]
fn trim_agrees_with_std() {
    for s in ["", " ", "a", " a", "a ", "\t a b \n", "\u{3000}嗯，好\u{3000}", "\u{85}x\u{a0}"] {
        assert_eq!(text::trim(s), s.trim());
    }
}

#[test]
fn trim_twice_is_trim_once() {
    let once = text::trim("  \n你好 world \u{2003}");
    assert_eq!(once, "你好 world");
    assert_eq!(text::trim(&once), once);
}

#[test]
fn blank_text_is_trimmed_to_nothing() {
    assert_eq!(text::trim(" \t\r\n\u{3000}"), "");
}

#[test]
fn characters_round_trip() {
    let chars = text::chars_of("aé中😀");
    assert_eq!(chars, vec!['a', 'é', '中', '😀']);
    assert_eq!(text::string_of(&chars, 0, 4), "aé中😀");
    assert_eq!(text::string_of(&chars, 1, 3), "é中");
    assert_eq!(text::string_of(&chars, 2, 2), "");
}

#[test]
fn trim_range_of_a_part() {
    let chars = text::chars_of("ab  cd  ef");
    assert_eq!(text::trim_range(&chars, 2, 8), (4, 6));
    assert_eq!(text::trim_range(&chars, 2, 4), (4, 4));
}

#[test]
fn last_occurrence_is_found() {
    let find = |s: &str, m: &str| text::find_last(&text::chars_of(s), &text::chars_of(m));
    assert_eq!(find("a-b-c", "-"), Some(3));
    assert_eq!(find("aaa", "aa"), Some(1));
    assert_eq!(find("abc", "x"), None);
    assert_eq!(find("ab", "abc"), None);
    assert_eq!(find("中文中", "中"), Some(2));
    assert_eq!(find("abc", ""), Some(3));
}

#[test]
fn equality_of_texts() {
    assert!(text::equal("中a", "中a"));
    assert!(!text::equal("中a", "中b"));
    assert!(!text::equal("a", "ab"));
    assert!(text::equal("", ""));
}

#[test]
fn prefix_is_stripped() {
    assert_eq!(text::strip_prefix("device:x", "device:"), Some("x".to_string()));
    assert_eq!(text::strip_prefix("device:", "device:"), Some(String::new()));
    assert_eq!(text::strip_prefix("devic", "device:"), None);
    assert_eq!(text::strip_prefix("xdevice:", "device:"), None);
}
