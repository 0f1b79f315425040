//! Texts: white space, lines, numbers.

use zhihu_collection_export::encoding::hex_lower;
use zhihu_collection_export::order::sort_places;
use zhihu_collection_export::text::{
    contains, decimal_text, ends_with, is_blank, is_white_space, join, lines, pad_end, pad_start, replace,
    shorten, signed_decimal_text, split, strip_end, strip_start, to_ascii_lower, trim, trim_end,
    CharClass,
};

#[test]
fn knows_white_space() {
    for c in (0..=0x10ffffu32).filter_map(char::from_u32) {
        assert_eq!(is_white_space(c), c.is_whitespace());
    }
}

#[test]
fn trims_like_the_standard_library() {
    for text in ["", " ", " a ", "\u{3000}a b\n", "\u{200b}a\u{200b}", "\u{feff} x"] {
        assert_eq!(trim(text), text.trim());
        assert_eq!(trim_end(text), text.trim_end());
        assert_eq!(is_blank(text), text.trim().is_empty());
        assert_eq!(trim(&trim(text)), trim(text));
    }
    assert_eq!(strip_start("..a.", CharClass::Only('.')), "a.");
    assert_eq!(strip_end(".a..", CharClass::Only('.')), ".a");
}

#[test]
fn splits_like_the_standard_library() {
    for text in ["", "\n", "a", "a\n", "a\r\nb", "a\n\nb\r", "\r\n\r\n", "a\rb\n"] {
        let expected: Vec<&str> = text.lines().collect();
        assert_eq!(lines(text), expected);
        let expected: Vec<&str> = text.split('\n').collect();
        assert_eq!(split(text, '\n'), expected);
    }
    assert_eq!(join(&vec![], ", "), "");
    assert_eq!(join(&vec!["a".to_string(), "".to_string(), "b".to_string()], ", "), "a, , b");
}

#[test]
fn finds_and_replaces() {
    assert!(contains("z_c0=1", "z_c0="));
    assert!(contains("aab", "ab"));
    assert!(contains("", ""));
    assert!(!contains("ab", "abc"));
    assert!(ends_with("www.zhihu.com", ".zhihu.com"));
    assert!(ends_with("a", "") && ends_with("", ""));
    assert!(!ends_with("zhihu.com", ".zhihu.com") && !ends_with("ab", "a"));
    assert_eq!(replace("a|b|", '|', "｜"), "a｜b｜");
    assert_eq!(replace("aa", 'a', ""), "");
    assert_eq!(to_ascii_lower("ÀBc"), "Àbc");
    assert_eq!(shorten("一二三", 2), "一二");
}

#[test]
fn writes_numbers() {
    for n in [0, 7, 10, 99, 100, 1234567890, u64::MAX] {
        assert_eq!(decimal_text(n), n.to_string());
    }
    for n in [0, -1, 42, i64::MIN, i64::MAX] {
        assert_eq!(signed_decimal_text(n), n.to_string());
    }
    assert_eq!(pad_start("7", '0', 3), "007");
    assert_eq!(pad_start("1234", '0', 3), "1234");
    assert_eq!(pad_end("一", 3), "一  ");
    assert_eq!(hex_lower(&vec![0, 10, 255]), "000aff");
}

#[test]
fn sorts_by_two_numbers_and_keeps_the_order_of_equals() {
    let keys = vec![(1, 1), (2, 0), (1, 1), (2, 5), (0, 9)];
    assert_eq!(sort_places(&keys), vec![3, 1, 0, 2, 4]);
}
