use hl7_forge::text::{
    contains_chars, is_whitespace, matches_at, same_text, split_ranges, string_of, string_of_range,
    to_chars, trim_range,
};

fn chars(s: &str) -> Vec<char> {
    s.chars().collect()
}

fn pieces(s: &str, c1: char, c2: char) -> Vec<String> {
    let v = chars(s);
    split_ranges(&v, 0, v.len(), c1, c2)
        .into_iter()
        .map(|(a, b)| string_of_range(&v, a, b))
        .collect()
}

#[test]
fn whitespace_is_what_the_standard_library_calls_so() {
    for u in 0..=0x3100u32 {
        if let Some(c) = char::from_u32(u) {
            assert_eq!(is_whitespace(c), c.is_whitespace(), "U+{:04X}", u);
        }
    }
    assert!(!is_whitespace('\u{FEFF}'));
    assert!(!is_whitespace('\u{10FFFF}'));
}

#[test]
fn trimming_agrees_with_str_trim() {
    for s in ["", " ", "a", " a", "a ", "  a b  ", "\r\n\ta\u{a0}\u{3000}", "\u{2003}x\u{2028}", " \t "] {
        let v = chars(s);
        let (a, b) = trim_range(&v);
        assert_eq!(string_of_range(&v, a, b), s.trim(), "{:?}", s);
    }
}

#[test]
fn splitting_agrees_with_str_split() {
    for s in ["", "|", "a", "a|b", "a||b", "|a|", "||", "MSH|^~\\&|X"] {
        let expected: Vec<String> = s.split('|').map(|p| p.to_string()).collect();
        assert_eq!(pieces(s, '|', '|'), expected, "{:?}", s);
    }
    assert_eq!(pieces("a\r\nb\nc", '\r', '\n'), vec!["a", "", "b", "c"]);
    let v = chars("xx|a|b|yy");
    assert_eq!(split_ranges(&v, 3, 6, '|', '|'), vec![(3, 4), (5, 6)]);
}

#[test]
fn texts_convert_both_ways() {
    let s = "Zo\u{eb} \u{1F600}|x";
    let v = to_chars(s);
    assert_eq!(v, chars(s));
    assert_eq!(string_of(&v), s);
    assert_eq!(string_of_range(&v, 1, 3), "o\u{eb}");
    assert_eq!(string_of_range(&v, 2, 2), "");
}

#[test]
fn search_finds_parts() {
    let hay = chars("hello world");
    assert!(contains_chars(&hay, &chars("")));
    assert!(contains_chars(&hay, &chars("hello")));
    assert!(contains_chars(&hay, &chars("o w")));
    assert!(contains_chars(&hay, &chars("world")));
    assert!(contains_chars(&hay, &chars("hello world")));
    assert!(!contains_chars(&hay, &chars("hello world!")));
    assert!(!contains_chars(&hay, &chars("World")));
    assert!(contains_chars(&chars(""), &chars("")));
    assert!(!contains_chars(&chars(""), &chars("a")));
    assert!(matches_at(&hay, &chars("world"), 6));
    assert!(!matches_at(&hay, &chars("world"), 5));
    assert!(same_text("abc", "abc"));
    assert!(!same_text("abc", "abd"));
    assert!(!same_text("abc", "ab"));
    assert!(same_text("", ""));
}
