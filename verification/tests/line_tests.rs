use dnf_converter::line::{is_white_space_char, parse_line};

#[test]
fn parse_line_plain_values() {
    assert_eq!(parse_line("1 -2 3"), Some(vec![1, -2, 3]));
    assert_eq!(parse_line("42"), Some(vec![42]));
    assert_eq!(parse_line("+5 -0 007"), Some(vec![5, 0, 7]));
}

#[test]
fn parse_line_trims_white_space() {
    assert_eq!(parse_line("  1 2  "), Some(vec![1, 2]));
    assert_eq!(parse_line("\t1 2\r\n"), Some(vec![1, 2]));
    assert_eq!(parse_line("\u{3000}3\u{a0}"), Some(vec![3]));
}

#[test]
fn parse_line_collapses_one_double_space() {
    assert_eq!(parse_line("1  2"), Some(vec![1, 2]));
    assert_eq!(parse_line(" 1  -2  3 "), Some(vec![1, -2, 3]));
}

#[test]
fn parse_line_rejects_odd_runs_of_spaces() {
    // three spaces leave two, which split into an empty piece
    assert_eq!(parse_line("1   2"), None);
    // four spaces become two, which split into an empty piece as well
    assert_eq!(parse_line("1    2"), None);
}

#[test]
fn parse_line_rejects_malformed_pieces() {
    assert_eq!(parse_line(""), None);
    assert_eq!(parse_line("   "), None);
    assert_eq!(parse_line("1 a"), None);
    assert_eq!(parse_line("-"), None);
    assert_eq!(parse_line("+"), None);
    assert_eq!(parse_line("--1"), None);
    assert_eq!(parse_line("+-1"), None);
    assert_eq!(parse_line("1\t2"), None);
    assert_eq!(parse_line("1,2"), None);
}

#[test]
fn parse_line_respects_the_i32_range() {
    assert_eq!(parse_line("2147483647"), Some(vec![i32::MAX]));
    assert_eq!(parse_line("-2147483648"), Some(vec![i32::MIN]));
    assert_eq!(parse_line("2147483648"), None);
    assert_eq!(parse_line("-2147483649"), None);
    assert_eq!(parse_line("99999999999999999999"), None);
}

#[test]
fn parse_line_agrees_with_std_on_pieces() {
    for s in ["0", "-0", "+12", "12a", "", "-", "2147483647", "2147483648", "-2147483648", "٣"] {
        let expected = s.parse::<i32>().ok().map(|v| vec![v]);
        let got = parse_line(s);
        if s.trim().is_empty() {
            assert_eq!(got, None);
        } else {
            assert_eq!(got, expected, "{s:?}");
        }
    }
}

#[test]
fn white_space_characters() {
    for c in [' ', '\t', '\n', '\u{b}', '\u{c}', '\r', '\u{85}', '\u{a0}', '\u{1680}', '\u{2000}', '\u{200a}', '\u{2028}', '\u{2029}', '\u{202f}', '\u{205f}', '\u{3000}'] {
        assert!(is_white_space_char(c), "{c:?}");
        assert!(c.is_whitespace());
    }
    for c in ['a', '0', '\u{200b}', '\u{feff}', '-'] {
        assert!(!is_white_space_char(c), "{c:?}");
        assert_eq!(c.is_whitespace(), false);
    }
}
