use homux::text::{
    chars_of, contains_chars, contains_str, matches_at, replace_chars, string_of, trim, whitespace,
};

fn replaced(text: &str, key: &str, value: &str) -> String {
    string_of(&replace_chars(&chars_of(text), &chars_of(key), &chars_of(value)))
}

#[test]
fn chars_round_trip() {
    assert_eq!(chars_of("ab"), vec!['a', 'b']);
    assert_eq!(chars_of(""), Vec::<char>::new());
    assert_eq!(string_of(&['h', 'é', '✓']), "hé✓");
    assert_eq!(string_of(&chars_of("päth/ünder")), "päth/ünder");
}

#[test]
fn matches_at_checks_one_place() {
    let text = chars_of("hello");
    assert!(matches_at(&text, &chars_of("ell"), 1));
    assert!(!matches_at(&text, &chars_of("ell"), 0));
    assert!(matches_at(&text, &chars_of("lo"), 3));
    assert!(!matches_at(&text, &chars_of("lo"), 4));
    assert!(matches_at(&text, &chars_of(""), 5));
    assert!(!matches_at(&text, &chars_of(""), 6));
    assert!(!matches_at(&text, &chars_of("hello!"), 0));
    assert!(!matches_at(&text, &chars_of("o"), usize::MAX));
}

#[test]
fn contains_finds_patterns() {
    assert!(contains_str("hello ~>>> world", "~>>>"));
    assert!(contains_str("abc", "c"));
    assert!(contains_str("abc", "abc"));
    assert!(!contains_str("abc", "abcd"));
    assert!(!contains_str("abc", "ca"));
    assert!(!contains_str("", "a"));
    assert!(contains_chars(&chars_of("aab"), &chars_of("ab")));
}

#[test]
fn empty_pattern_is_in_every_text() {
    assert!(contains_str("abc", ""));
    assert!(contains_str("", ""));
}

#[test]
fn replace_takes_every_occurrence() {
    assert_eq!(replaced("a-b-c", "-", "+"), "a+b+c");
    assert_eq!(replaced("AB A", "AB", "x"), "x A");
    assert_eq!(replaced("hello", "xyz", "!"), "hello");
    assert_eq!(replaced("", "a", "b"), "");
    assert_eq!(replaced("aaa", "a", ""), "");
    assert_eq!(replaced("key", "key", "value"), "value");
}

#[test]
fn replace_goes_left_to_right_without_overlap() {
    assert_eq!(replaced("aaa", "aa", "X"), "Xa");
    assert_eq!(replaced("aaaa", "aa", "X"), "XX");
    assert_eq!(replaced("ababa", "aba", "-"), "-ba");
}

#[test]
fn replace_does_not_search_what_it_put_in() {
    assert_eq!(replaced("ab", "a", "aa"), "aab");
    assert_eq!(replaced("abb", "ab", "a"), "ab");
}

#[test]
fn replace_of_the_empty_key() {
    assert_eq!(replaced("abc", "", "-"), "-a-b-c-");
    assert_eq!(replaced("", "", "-"), "-");
}

#[test]
fn replace_agrees_with_the_standard_library() {
    let texts = ["", "a", "aaa", "abcabc", "AB A", "héllo wörld", "a\nb\n", "~>>>x~<<<"];
    let keys = ["", "a", "aa", "abc", "A", "AB", "ö", "\n", "~>>>", "zz"];
    let values = ["", "a", "b", "xyz", "AB"];
    for text in texts {
        for key in keys {
            for value in values {
                assert_eq!(replaced(text, key, value), text.replace(key, value));
                assert_eq!(contains_str(text, key), text.contains(key));
            }
        }
    }
}

#[test]
fn whitespace_is_the_unicode_property() {
    for code in 0..=0x10FFFFu32 {
        if let Some(c) = char::from_u32(code) {
            assert_eq!(whitespace(c), c.is_whitespace(), "U+{code:04X}");
        }
    }
}

#[test]
fn trim_removes_white_space_at_both_ends() {
    assert_eq!(trim("  host \n"), "host");
    assert_eq!(trim("host"), "host");
    assert_eq!(trim("\t/tmp/homux.staging.Ab3 \r\n"), "/tmp/homux.staging.Ab3");
    assert_eq!(trim("a b"), "a b");
    assert_eq!(trim(" \n\t "), "");
    assert_eq!(trim(""), "");
    assert_eq!(trim("\u{3000}x\u{a0}"), "x");
}

#[test]
fn trim_agrees_with_the_standard_library() {
    for text in ["", " ", "a", " a", "a ", "\n a b \t", "\u{2028}é\u{85}", "x\u{200b}"] {
        assert_eq!(trim(text), text.trim());
    }
}
