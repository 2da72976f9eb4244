use proxygen::text::{
    chars_of, copy_range, find_first, find_last, is_decimal_digit, is_whitespace,
    push_chars, push_decimal, split_text, string_of, trim_bounds, trim_end_len, trimmed,
};

fn chars(s: &str) -> Vec<char> {
    s.chars().collect()
}

fn text(v: &[char]) -> String {
    v.iter().collect()
}

#[test]
fn whitespace_is_what_the_standard_library_calls_whitespace() {
    let mut code: u32 = 0;
    while code <= 0x3100 {
        if let Some(c) = char::from_u32(code) {
            assert_eq!(is_whitespace(c), c.is_whitespace(), "U+{:04X}", code);
        }
        code += 1;
    }
    assert!(!is_whitespace('\u{feff}'));
    assert!(!is_whitespace('\u{10ffff}'));
}

#[test]
fn decimal_digits_are_zero_to_nine() {
    for c in '0'..='9' {
        assert!(is_decimal_digit(c));
    }
    for c in ['/', ':', 'a', ' ', '\u{660}', '\u{ff11}'] {
        assert!(!is_decimal_digit(c));
    }
}

#[test]
fn strings_and_characters_convert_both_ways() {
    let s = "S\u{e9}ance \u{2014} x";
    assert_eq!(chars_of(s), chars(s));
    assert_eq!(string_of(&chars(s)), s);
    assert_eq!(chars_of(""), Vec::<char>::new());
    assert_eq!(string_of(&Vec::new()), "");
}

#[test]
fn ranges_are_copied() {
    let v = chars("abcdef");
    assert_eq!(copy_range(&v, 1, 4), chars("bcd"));
    assert_eq!(copy_range(&v, 2, 2), chars(""));
    assert_eq!(copy_range(&v, 0, 6), v);
    let mut s = String::from("<");
    push_chars(&mut s, &v, 2, 5);
    assert_eq!(s, "<cde");
}

#[test]
fn trimming_cuts_white_space_at_both_ends_only() {
    assert_eq!(text(&trimmed(&chars("  a b \t\r\n"))), "a b");
    assert_eq!(text(&trimmed(&chars("a b"))), "a b");
    assert_eq!(text(&trimmed(&chars(" \u{a0}\u{3000} "))), "");
    assert_eq!(text(&trimmed(&chars(""))), "");
    let v = chars("x  ab  y");
    assert_eq!(trim_bounds(&v, 1, 7), (3, 5));
    assert_eq!(trim_bounds(&v, 1, 3), (3, 3));
    assert_eq!(trim_end_len(&v, 7), 5);
    assert_eq!(trim_end_len(&chars("   "), 3), 0);
    for s in ["  a b ", "\ta", "a\n", " ", "", "\u{2003}x\u{2003}"] {
        assert_eq!(text(&trimmed(&chars(s))), s.trim(), "sample {:?}", s);
    }
}

#[test]
fn text_is_split_at_line_feeds() {
    let lines: Vec<String> = split_text(&chars("a\nb\r\n\nc")).iter().map(|l| text(l)).collect();
    assert_eq!(lines, vec!["a", "b\r", "", "c"]);
    assert_eq!(split_text(&chars("")), vec![Vec::<char>::new()]);
    assert_eq!(split_text(&chars("a\n")), vec![chars("a"), chars("")]);
    assert_eq!(split_text(&chars("\n")), vec![chars(""), chars("")]);
}

#[test]
fn characters_are_found_first_and_last() {
    let v = chars("a(b)(c)d");
    assert_eq!(find_first(&v, '(', 0), Some(1));
    assert_eq!(find_first(&v, '(', 2), Some(4));
    assert_eq!(find_first(&v, '(', 5), None);
    assert_eq!(find_first(&v, '(', 100), None);
    assert_eq!(find_first(&v, 'z', 0), None);
    assert_eq!(find_last(&v, ')'), Some(6));
    assert_eq!(find_last(&v, 'a'), Some(0));
    assert_eq!(find_last(&v, 'z'), None);
    assert_eq!(find_last(&chars(""), 'z'), None);
}

#[test]
fn numbers_are_written_in_decimal() {
    for n in [0u64, 1, 9, 10, 11, 99, 100, 101, 1000, 65535, 4294967296, u64::MAX - 1, u64::MAX] {
        let mut out = String::from("n=");
        push_decimal(&mut out, n);
        assert_eq!(out, format!("n={}", n));
    }
}
