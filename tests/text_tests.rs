use neitc::text::{decimal_text, lowercase, parse_i32, source_line, string_of, chars_of};

#[test]
fn source_line_agrees_with_std_lines() {
    let samples = ["", "a", "a\nb", "a\r\nb\n", "x\n\ny", "foo\nbar\n\r\nbaz\r", "\n\n", "one\rtwo\n"];
    for s in samples {
        for n in 0..6 {
            let expected = s.lines().nth(n).unwrap_or_default().to_string();
            assert_eq!(source_line(s, n), expected, "text {:?} line {}", s, n);
        }
    }
}

#[test]
fn source_line_drops_crlf() {
    assert_eq!(source_line("a\r\nb\n", 0), "a");
    assert_eq!(source_line("a\r\nb\n", 1), "b");
    assert_eq!(source_line("a\r\nb\n", 2), "");
}

#[test]
fn parse_i32_bounds_and_signs() {
    assert_eq!(parse_i32("42"), Some(42));
    assert_eq!(parse_i32("+7"), Some(7));
    assert_eq!(parse_i32("-2147483648"), Some(i32::MIN));
    assert_eq!(parse_i32("2147483648"), None);
    assert_eq!(parse_i32("-"), None);
    assert_eq!(parse_i32(" 1"), None);
    assert_eq!(parse_i32("abc"), None);
}

#[test]
fn decimal_text_signs() {
    assert_eq!(decimal_text(0), "0");
    assert_eq!(decimal_text(-305), "-305");
    assert_eq!(decimal_text(1234), "1234");
}

#[test]
fn lowercase_and_round_trip_of_chars() {
    assert_eq!(lowercase("StdOut"), "stdout");
    assert_eq!(string_of(&chars_of("héllo")), "héllo");
}
