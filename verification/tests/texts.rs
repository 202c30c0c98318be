use wikitools::number::{decimal_of, parse_u64};
use wikitools::text::{
    chars_of, find_in, has_infix, has_prefix, is_match_at, is_whitespace, joined, replaced,
    rfind_in, same_text, slice_of, string_of, text_starts_with, trimmed, trimmed_of,
};

fn chars(s: &str) -> Vec<char> {
    s.chars().collect()
}

#[test]
fn characters_and_strings() {
    assert_eq!(chars_of("aé\u{3000}"), vec!['a', 'é', '\u{3000}']);
    assert_eq!(string_of(&chars("aé")), "aé");
    assert_eq!(slice_of(&chars("hello"), 1, 3), chars("el"));
    assert!(same_text("ab", "ab"));
    assert!(!same_text("ab", "abc"));
    assert!(!same_text("ab", "ac"));
    assert!(text_starts_with("abc", "ab"));
    assert!(!text_starts_with("ab", "abc"));
}

#[test]
fn white_space_is_what_unicode_says() {
    for c in ['\t', '\n', '\u{b}', '\u{c}', '\r', ' ', '\u{85}', '\u{a0}', '\u{1680}', '\u{2000}',
        '\u{200a}', '\u{2028}', '\u{2029}', '\u{202f}', '\u{205f}', '\u{3000}']
    {
        assert!(is_whitespace(c));
        assert!(c.is_whitespace());
    }
    for c in ['a', '_', '\u{200b}', '\u{180e}', '\u{feff}', '\u{8}', '\u{e}', '\u{2007}'] {
        assert_eq!(is_whitespace(c), c.is_whitespace());
    }
    for u in 0u32..0x3100 {
        if let Some(c) = char::from_u32(u) {
            assert_eq!(is_whitespace(c), c.is_whitespace());
        }
    }
}

#[test]
fn trimming() {
    assert_eq!(trimmed(&chars("  a b \n")), chars("a b"));
    assert_eq!(trimmed(&chars("   ")), chars(""));
    assert_eq!(trimmed(&chars("")), chars(""));
    assert_eq!(trimmed(&chars("x")), chars("x"));
    assert_eq!(trimmed_of(&chars("''it's''"), '\''), chars("it's"));
    assert_eq!(trimmed_of(&chars("'''"), '\''), chars(""));
    assert_eq!(trimmed_of(&chars(" 'a'"), '\''), chars(" 'a"));
}

#[test]
fn finding() {
    let text = chars("abcabc");
    assert_eq!(find_in(&text, &chars("bc"), 0), Some(1));
    assert_eq!(find_in(&text, &chars("bc"), 2), Some(4));
    assert_eq!(find_in(&text, &chars("bc"), 5), None);
    assert_eq!(find_in(&text, &chars(""), 6), Some(6));
    assert_eq!(find_in(&text, &chars(""), 7), None);
    assert_eq!(find_in(&text, &chars("abcabcd"), 0), None);
    assert_eq!(rfind_in(&text, &chars("bc")), Some(4));
    assert_eq!(rfind_in(&text, &chars("x")), None);
    assert_eq!(rfind_in(&text, &chars("")), Some(6));
    assert!(is_match_at(&text, &chars("ca"), 2));
    assert!(!is_match_at(&text, &chars("ca"), 5));
    assert!(has_prefix(&text, &chars("abc")));
    assert!(!has_prefix(&text, &chars("bc")));
    assert!(has_infix(&text, &chars("cab")));
    assert!(!has_infix(&text, &chars("cc")));
}

#[test]
fn replacing_and_joining() {
    assert_eq!(replaced(&chars("a b  c"), ' ', '_'), chars("a_b__c"));
    assert_eq!(joined(&vec![chars("a"), chars("b"), chars("")], &chars(", ")), chars("a, b, "));
    assert_eq!(joined(&vec![chars("a")], &chars(", ")), chars("a"));
    assert_eq!(joined(&vec![], &chars(", ")), chars(""));
}

#[test]
fn numbers_in_decimal() {
    assert_eq!(decimal_of(0), chars("0"));
    assert_eq!(decimal_of(7), chars("7"));
    assert_eq!(decimal_of(1203), chars("1203"));
    assert_eq!(decimal_of(u64::MAX), chars("18446744073709551615"));
    assert_eq!(parse_u64(&chars("0")), Some(0));
    assert_eq!(parse_u64(&chars("+12")), Some(12));
    assert_eq!(parse_u64(&chars("007")), Some(7));
    assert_eq!(parse_u64(&chars("18446744073709551615")), Some(u64::MAX));
    assert_eq!(parse_u64(&chars("18446744073709551616")), None);
    assert_eq!(parse_u64(&chars("99999999999999999999999")), None);
    for bad in ["", "+", "-1", "1 ", " 1", "1a", "++1", "1+"] {
        assert_eq!(parse_u64(&chars(bad)), None);
        assert!(bad.parse::<u64>().is_err());
    }
    for n in [0u64, 9, 10, 99, 100, 4096, u64::MAX] {
        assert_eq!(parse_u64(&decimal_of(n)), Some(n));
        assert_eq!(string_of(&decimal_of(n)), n.to_string());
    }
}
