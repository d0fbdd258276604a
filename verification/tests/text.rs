use herdr::text::{
    has_prefix, has_suffix, is_white_space, join, parse_u32, push_decimal, same_text, split_fields, split_lines,
    split_once, string_of, strip_prefix, trim, trim_end, trim_start,
};

fn chars(s: &str) -> Vec<char> {
    s.chars().collect()
}

fn back(s: &[char]) -> String {
    s.iter().collect()
}

#[test]
fn characters_and_strings() {
    assert_eq!(string_of(&chars("aé→")), "aé→");
    assert!(same_text("aé", "aé"));
    assert!(!same_text("a", "ab"));
}

#[test]
fn trimming_agrees_with_the_standard_library() {
    for s in ["", "  ", " a b ", "\t\u{a0}x\u{2003}\r\n", "\u{200b}x", "\u{85}y\u{1680}\u{2028}"] {
        assert_eq!(back(trim_start(&chars(s))), s.trim_start());
        assert_eq!(back(trim_end(&chars(s))), s.trim_end());
        assert_eq!(back(trim(&chars(s))), s.trim());
    }
}

#[test]
fn white_space_is_that_of_unicode() {
    for code in 0..=0x10ffffu32 {
        if let Some(c) = char::from_u32(code) {
            assert_eq!(is_white_space(c), c.is_whitespace(), "{code:x}");
        }
    }
}

#[test]
fn prefixes_and_suffixes() {
    assert!(has_prefix(&chars("abc"), "ab") && !has_prefix(&chars("abc"), "bc"));
    assert!(has_suffix(&chars("abc"), "bc") && !has_suffix(&chars("abc"), "ab"));
    assert!(has_prefix(&chars("abc"), "") && !has_prefix(&chars("a"), "ab"));
    assert_eq!(strip_prefix(&chars("+++ b/x"), "+++ b/").map(back), Some("x".to_string()));
    assert_eq!(strip_prefix(&chars("x"), "+"), None);
}

#[test]
fn splitting_agrees_with_the_standard_library() {
    for s in ["", "\n", "a", "a\nb", "a\r\nb\r\n", "\n\na\n", "x\r", "a\r\r\nb"] {
        let fields: Vec<&str> = s.split('\n').collect();
        assert_eq!(split_fields(&chars(s), '\n'), fields);
        let lines: Vec<&str> = s.lines().collect();
        assert_eq!(split_lines(&chars(s)), lines);
        assert_eq!(join(&split_fields(&chars(s), '\n'), "\n"), s);
    }
    for (s, pattern) in [("a,b,c", ","), ("abc", ","), ("a b/ b/c", " b/"), ("", "x")] {
        let ours = chars(s);
        let parts = split_once(&ours, pattern).map(|(a, b)| (back(a), back(b)));
        let theirs = s.split_once(pattern).map(|(a, b)| (a.to_string(), b.to_string()));
        assert_eq!(parts, theirs);
    }
}

#[test]
fn numbers_agree_with_the_standard_library() {
    for s in ["", "0", "007", "+5", "++5", "-1", "4294967295", "4294967296", "1a", "٣", "99999999999999999999"] {
        assert_eq!(parse_u32(&chars(s)), s.parse::<u32>().ok());
    }
    for n in [0, 7, 10, 4294967295, u64::MAX] {
        let mut out = String::from("n=");
        push_decimal(&mut out, n);
        assert_eq!(out, format!("n={n}"));
    }
}
