//! Text helpers on their edge cases.

use ds::text::{
    chars_of, collapse_of, comes_before, contains_text, decimal_of, is_whitespace, join_texts,
    lower_text, replace_of, split_of, string_of, strip_end_of, strip_start_of, trim_of, CharSet,
};
use ds::unique::{UniquePairs, UniqueTexts};

fn cs(s: &str) -> Vec<char> {
    s.chars().collect()
}

#[test]
fn white_space_is_that_of_unicode() {
    for n in 0u32..0x11_0000 {
        if let Some(c) = char::from_u32(n) {
            assert_eq!(is_whitespace(c), c.is_whitespace(), "{n:x}");
        }
    }
}

#[test]
fn trimming_agrees_with_the_standard_library() {
    for s in ["", " ", " a ", "\t\u{3000}a b\n", "..a..", "a"] {
        assert_eq!(string_of(trim_of(&cs(s))), s.trim());
        assert_eq!(
            string_of(strip_start_of(&cs(s), CharSet::Only('.'))),
            s.trim_start_matches('.')
        );
        assert_eq!(
            string_of(strip_end_of(&cs(s), CharSet::Only('.'))),
            s.trim_end_matches('.')
        );
    }
}

#[test]
fn splitting_agrees_with_the_standard_library() {
    for s in ["", ",", "a,b", ",a,,b,", "abc"] {
        let got: Vec<String> = split_of(&cs(s), CharSet::Only(','))
            .iter()
            .map(|p| string_of(p))
            .collect();
        let want: Vec<&str> = s.split(',').collect();
        assert_eq!(got, want);
        assert_eq!(join_texts(&got, ","), s);
    }
}

#[test]
fn collapsing_leaves_single_blanks() {
    assert_eq!(string_of(&collapse_of(&cs("  a \t\r\n b  "))), "a b");
    assert_eq!(string_of(&collapse_of(&cs(" \n "))), "");
}

#[test]
fn searching_and_replacing() {
    assert!(contains_text(&cs("abcabd"), "abd"));
    assert!(!contains_text(&cs("abc"), "abcd"));
    assert!(contains_text(&cs(""), ""));
    assert_eq!(
        string_of(&replace_of(&cs("aaaa"), &cs("aa"), &cs("b"))),
        "aaaa".replace("aa", "b")
    );
    assert_eq!(
        string_of(&replace_of(&cs("x{d}y{d}"), &cs("{d}"), &cs("{d}{d}"))),
        "x{d}y{d}".replace("{d}", "{d}{d}")
    );
}

#[test]
fn the_order_is_that_of_strings() {
    let words = ["", "a", "ab", "b", "\u{e9}", "\u{1f600}", "\u{ffff}", "Z"];
    for a in words {
        for b in words {
            assert_eq!(comes_before(&cs(a), &cs(b)), a < b, "{a} {b}");
        }
    }
}

#[test]
fn numbers_and_case() {
    assert_eq!(string_of(&decimal_of(0)), "0");
    assert_eq!(string_of(&decimal_of(u64::MAX)), u64::MAX.to_string());
    assert_eq!(lower_text("AbÉ9"), "abÉ9");
    assert_eq!(chars_of("aé"), vec!['a', 'é']);
}

#[test]
fn unique_lists_keep_first_appearances() {
    let mut texts = UniqueTexts::new();
    texts.add_all(&["b".to_string(), "a".to_string(), "b".to_string()]);
    texts.add("c".to_string());
    texts.add("a".to_string());
    assert_eq!(texts.into_list(), vec!["b", "a", "c"]);
    let mut pairs = UniquePairs::new();
    pairs.add("ab".to_string(), "c".to_string());
    pairs.add("a".to_string(), "bc".to_string());
    pairs.add("ab".to_string(), "c".to_string());
    assert_eq!(
        pairs.into_list(),
        vec![
            ("ab".to_string(), "c".to_string()),
            ("a".to_string(), "bc".to_string())
        ]
    );
}
