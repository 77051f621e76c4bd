use pswap::status::{parse_i32_range, parse_usize_range};
use pswap::text::{chars_of, digits_value_upto, find_char, is_space, trim_bounds};

#[test]
fn chars_are_collected_in_order() {
    assert_eq!(chars_of("aé:1"), vec!['a', 'é', ':', '1']);
    assert!(chars_of("").is_empty());
}

#[test]
fn trim_bounds_skip_unicode_whitespace_at_both_ends() {
    let cs = chars_of("x:\t \u{3000}a b\u{2003}\n");
    let (a, b) = trim_bounds(&cs, 2, cs.len());
    assert_eq!(cs[a..b].iter().collect::<String>(), "a b");
    let blank = chars_of(" \t\r\n");
    let (a, b) = trim_bounds(&blank, 0, blank.len());
    assert_eq!(a, b);
}

#[test]
fn whitespace_matches_std() {
    for c in ['\t', '\n', '\u{b}', '\u{c}', '\r', ' ', '\u{85}', '\u{a0}', '\u{1680}', '\u{2000}',
        '\u{200a}', '\u{2028}', '\u{2029}', '\u{202f}', '\u{205f}', '\u{3000}', 'a', '\u{200b}',
        '\u{feff}', '0'] {
        assert_eq!(is_space(c), c.is_whitespace(), "{:?}", c);
    }
}

#[test]
fn digits_value_respects_its_limit() {
    let cs = chars_of("4096");
    assert_eq!(digits_value_upto(&cs, 0, 4, 4096), Some(4096));
    assert_eq!(digits_value_upto(&cs, 0, 4, 4095), None);
    assert_eq!(digits_value_upto(&cs, 1, 3, 10), Some(9));
    assert_eq!(digits_value_upto(&cs, 2, 2, 0), Some(0));
    let big = chars_of("99999999999999999999999");
    assert_eq!(digits_value_upto(&big, 0, big.len(), u64::MAX), None);
    let bad = chars_of("12a");
    assert_eq!(digits_value_upto(&bad, 0, 3, 1000), None);
}

#[test]
fn first_colon_is_found() {
    assert_eq!(find_char(&chars_of("a:b:c"), ':'), Some(1));
    assert_eq!(find_char(&chars_of("abc"), ':'), None);
    assert_eq!(find_char(&chars_of(""), ':'), None);
}

#[test]
fn number_ranges_parse_as_std_does() {
    for s in ["0", "-0", "+0", "42", "-42", "2147483647", "-2147483648", "2147483648",
        "-2147483649", "", "+", "-", "+-1", "1_0", " 1", "00012"] {
        let cs = chars_of(s);
        assert_eq!(parse_i32_range(&cs, 0, cs.len()), s.parse::<i32>().ok(), "{:?}", s);
        assert_eq!(parse_usize_range(&cs, 0, cs.len()), s.parse::<usize>().ok(), "{:?}", s);
    }
    let max = usize::MAX.to_string();
    let cs = chars_of(&max);
    assert_eq!(parse_usize_range(&cs, 0, cs.len()), Some(usize::MAX));
    let over = format!("{}0", max);
    let cs = chars_of(&over);
    assert_eq!(parse_usize_range(&cs, 0, cs.len()), None);
}
