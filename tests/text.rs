use math_toolkit::text::{chars_of, is_white_space, lines, parse_i32, parse_row, split, trimmed};

fn cs(s: &str) -> Vec<char> {
    s.chars().collect()
}

#[test]
fn split_keeps_empty_pieces() {
    assert_eq!(split(&cs("a,,b,"), ','), vec![cs("a"), vec![], cs("b"), vec![]]);
    assert_eq!(split(&vec![], ','), vec![Vec::<char>::new()]);
}

#[test]
fn lines_drop_final_empty_line() {
    assert_eq!(lines(&cs("x\ny\n")), vec![cs("x"), cs("y")]);
    assert_eq!(lines(&cs("x\n\ny")), vec![cs("x"), vec![], cs("y")]);
    assert!(lines(&vec![]).is_empty());
}

#[test]
fn trimmed_strips_white_space() {
    assert_eq!(trimmed(&cs(" \t12 \r")), cs("12"));
    assert_eq!(trimmed(&cs("\u{a0}\u{2028}12\u{3000}\u{85}")), cs("12"));
    assert_eq!(trimmed(&cs("   ")), Vec::<char>::new());
    assert_eq!(trimmed(&cs("a b")), cs("a b"));
}

#[test]
fn white_space_matches_std() {
    for v in 0u32..0x3100 {
        if let Some(c) = char::from_u32(v) {
            assert_eq!(is_white_space(c), c.is_whitespace(), "{:x}", v);
        }
    }
}

#[test]
fn parse_i32_values() {
    assert_eq!(parse_i32(&cs("-12")), Some(-12));
    assert_eq!(parse_i32(&cs("+12")), Some(12));
    assert_eq!(parse_i32(&cs("1 2")), None);
    assert_eq!(parse_i32(&cs("")), None);
    assert_eq!(parse_i32(&cs("\u{661}")), None);
}

#[test]
fn parse_row_trims_fields() {
    assert_eq!(parse_row(&cs(" 1 ,-2")), Some(vec![1, -2]));
    assert_eq!(parse_row(&cs("1,")), None);
}

#[test]
fn chars_of_keeps_every_character() {
    assert_eq!(chars_of("a\u{e9}\u{3000}"), vec!['a', '\u{e9}', '\u{3000}']);
}
