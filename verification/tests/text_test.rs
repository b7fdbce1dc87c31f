use rust_rag::text::{
    chars_of, contains_chars, find_pattern, is_whitespace_char, lowercase_chars, push_decimal,
    split_words, string_from, string_of, trim_bounds,
};

fn chars(s: &str) -> Vec<char> {
    s.chars().collect()
}

#[test]
fn whitespace_is_unicode_whitespace() {
    for c in ['\t', '\n', '\u{b}', '\u{c}', '\r', ' ', '\u{85}', '\u{a0}', '\u{1680}', '\u{2000}',
              '\u{200a}', '\u{2028}', '\u{2029}', '\u{202f}', '\u{205f}', '\u{3000}'] {
        assert!(is_whitespace_char(c));
        assert!(c.is_whitespace());
    }
    for c in ['a', '0', '\u{200b}', '\u{feff}', '_', '\u{0}'] {
        assert_eq!(is_whitespace_char(c), c.is_whitespace());
    }
}

#[test]
fn trimming_matches_str_trim() {
    for s in ["  a b  ", "\u{3000}x\u{a0}", "", "   ", "none", "\tlead", "trail\n"] {
        let v = chars(s);
        let (a, b) = trim_bounds(&v, 0, v.len());
        assert_eq!(string_of(&v, a, b), s.trim());
    }
    let v = chars("xx  mid  yy");
    let (a, b) = trim_bounds(&v, 2, 9);
    assert_eq!(string_of(&v, a, b), "mid");
}

#[test]
fn words_match_split_whitespace() {
    for s in ["  one two\tthree\n", "", "   ", "single", "a  b", "é\u{3000}ñ"] {
        let words: Vec<String> = split_words(s).iter().map(|w| w.iter().collect()).collect();
        let expected: Vec<String> = s.split_whitespace().map(|w| w.to_string()).collect();
        assert_eq!(words, expected);
    }
}

#[test]
fn substring_search() {
    assert!(contains_chars(&chars("programming"), &chars("gram")));
    assert!(!contains_chars(&chars("programming"), &chars("grams")));
    assert!(contains_chars(&chars("abc"), &chars("")));
    assert!(!contains_chars(&chars(""), &chars("a")));
    assert_eq!(find_pattern(&chars("a\n\nb\n\nc"), &chars("\n\n"), 0), Some(1));
    assert_eq!(find_pattern(&chars("a\n\nb\n\nc"), &chars("\n\n"), 2), Some(4));
    assert_eq!(find_pattern(&chars("a\n\nb"), &chars("\n\n"), 3), None);
}

#[test]
fn lowercase_is_unicode_lowercase() {
    let l: String = lowercase_chars(&chars("ÀB Σ")).iter().collect();
    assert_eq!(l, "àb σ");
}

#[test]
fn strings_and_decimals() {
    let mut s = string_from("n=");
    push_decimal(&mut s, 0);
    push_decimal(&mut s, 907);
    assert_eq!(s, "n=0907");
    let mut big = String::new();
    push_decimal(&mut big, usize::MAX);
    assert_eq!(big, usize::MAX.to_string());
    assert_eq!(chars_of("héllo"), chars("héllo"));
}
