use word_doc_qa::text::{
    chars_of, contains_chars, is_whitespace, join_with_spaces, parse_i32, parse_u32,
    push_decimal, push_decimal_i32, split_lines, split_words, string_of, trim_chars,
};

fn s(v: &Vec<char>) -> String {
    string_of(v)
}

fn cs(x: &str) -> Vec<char> {
    chars_of(x)
}

#[test]
fn whitespace_agrees_with_std_for_every_char() {
    for v in 0u32..=0x10FFFF {
        if let Some(c) = char::from_u32(v) {
            assert_eq!(is_whitespace(c), c.is_whitespace(), "U+{:04X}", v);
        }
    }
}

#[test]
fn trim_removes_unicode_whitespace_at_both_ends() {
    assert_eq!(s(&trim_chars(&cs("  ab c \t\u{A0}"))), "ab c");
    assert_eq!(s(&trim_chars(&cs(" \n "))), "");
    assert_eq!(s(&trim_chars(&cs("x"))), "x");
    for t in ["", " a ", "\u{3000}b\u{2003}", "a\r\n"] {
        assert_eq!(s(&trim_chars(&cs(t))), t.trim());
    }
}

#[test]
fn lines_agree_with_std() {
    for t in ["", "a", "a\n", "a\r\nb\n\nc\r", "\n", "\n\n", "x\ry\n", "a\r\n"] {
        let ours: Vec<String> = split_lines(&cs(t)).iter().map(|l| s(l)).collect();
        let std: Vec<String> = t.lines().map(|l| l.to_string()).collect();
        assert_eq!(ours, std, "{:?}", t);
    }
}

#[test]
fn words_and_join() {
    let w = split_words(&cs("  the  quick\tbrown\nfox "));
    let ws: Vec<String> = w.iter().map(|x| s(x)).collect();
    assert_eq!(ws, vec!["the", "quick", "brown", "fox"]);
    assert_eq!(s(&join_with_spaces(&w)), "the quick brown fox");
    assert_eq!(split_words(&cs(" \t ")).len(), 0);
}

#[test]
fn substring_search() {
    assert!(contains_chars(&cs("council meeting"), &cs("meet")));
    assert!(contains_chars(&cs("abc"), &cs("")));
    assert!(!contains_chars(&cs("abc"), &cs("abcd")));
    assert!(!contains_chars(&cs("abc"), &cs("ac")));
    assert!(contains_chars(&cs("aab"), &cs("ab")));
}

#[test]
fn decimal_rendering() {
    let mut out = Vec::new();
    push_decimal(&mut out, 0);
    assert_eq!(s(&out), "0");
    let mut out = Vec::new();
    push_decimal(&mut out, 1234567890);
    assert_eq!(s(&out), "1234567890");
    let mut out = Vec::new();
    push_decimal(&mut out, u64::MAX);
    assert_eq!(s(&out), u64::MAX.to_string());
    for v in [0i32, 7, -42, 2026, i32::MIN, i32::MAX] {
        let mut out = Vec::new();
        push_decimal_i32(&mut out, v);
        assert_eq!(s(&out), v.to_string());
    }
}

#[test]
fn parsing_agrees_with_std() {
    let cases = [
        "", "0", "12", "+12", "-12", "+", "-", "4294967295", "4294967296", "2147483647",
        "2147483648", "-2147483648", "-2147483649", "12a", " 1", "٢٠٢٦", "007", "99999999999999999999",
    ];
    for t in cases {
        assert_eq!(parse_u32(&cs(t)), t.parse::<u32>().ok(), "u32 {:?}", t);
        assert_eq!(parse_i32(&cs(t)), t.parse::<i32>().ok(), "i32 {:?}", t);
    }
}

#[test]
fn decimal_then_parse_gives_the_number_back() {
    for v in [0i32, 5, -5, 1999, i32::MIN, i32::MAX] {
        let mut out = Vec::new();
        push_decimal_i32(&mut out, v);
        assert_eq!(parse_i32(&out), Some(v));
    }
    for v in [0u32, 9, 10, u32::MAX] {
        let mut out = Vec::new();
        push_decimal(&mut out, v as u64);
        assert_eq!(parse_u32(&out), Some(v));
    }
}

