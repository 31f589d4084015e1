use pdfsigner::decimal::{decimal_len, push_decimal, push_zero_padded};
use pdfsigner::scanner::{
    contains_token, find_token, find_token_from, matches_at, parse_object_number_before,
    parse_unsigned, read_first_number, rfind_token, scan_line, scan_token, trim,
};

#[test]
fn find_token_returns_first_occurrence() {
    assert_eq!(find_token(b"abcabc", b"bc"), Some(1));
    assert_eq!(find_token(b"abcabc", b"abc"), Some(0));
    assert_eq!(find_token(b"abcabc", b"cab"), Some(2));
    assert_eq!(find_token(b"abcabc", b"x"), None);
    assert_eq!(find_token(b"ab", b"abc"), None);
    assert_eq!(find_token(b"", b"a"), None);
}

#[test]
fn find_token_from_skips_earlier_occurrences() {
    assert_eq!(find_token_from(b"abcabc", b"bc", 0), Some(1));
    assert_eq!(find_token_from(b"abcabc", b"bc", 1), Some(1));
    assert_eq!(find_token_from(b"abcabc", b"bc", 2), Some(4));
    assert_eq!(find_token_from(b"abcabc", b"bc", 5), None);
    assert_eq!(find_token_from(b"abcabc", b"bc", 99), None);
}

#[test]
fn rfind_token_returns_last_occurrence() {
    assert_eq!(rfind_token(b"abcabc", b"bc"), Some(4));
    assert_eq!(rfind_token(b"abcabc", b"abc"), Some(3));
    assert_eq!(rfind_token(b"abcabc", b"x"), None);
    assert_eq!(rfind_token(b"trailer one trailer two", b"trailer"), Some(12));
}

#[test]
fn matches_at_and_contains() {
    assert!(matches_at(b"hello", b"ell", 1));
    assert!(!matches_at(b"hello", b"ell", 2));
    assert!(!matches_at(b"hello", b"lo!", 3));
    assert!(contains_token(b"/Type /Catalog /AcroForm 5 0 R", b"/AcroForm"));
    assert!(!contains_token(b"/Type /Catalog", b"/AcroForm"));
}

#[test]
fn parse_unsigned_reads_what_the_standard_parser_reads() {
    assert_eq!(parse_unsigned(b"0", 100), Some(0));
    assert_eq!(parse_unsigned(b"12", 100), Some(12));
    assert_eq!(parse_unsigned(b"+12", 100), Some(12));
    assert_eq!(parse_unsigned(b"007", 100), Some(7));
    assert_eq!(parse_unsigned(b"100", 100), Some(100));
    assert_eq!(parse_unsigned(b"101", 100), None);
    assert_eq!(parse_unsigned(b"", 100), None);
    assert_eq!(parse_unsigned(b"+", 100), None);
    assert_eq!(parse_unsigned(b"-1", 100), None);
    assert_eq!(parse_unsigned(b"1a", 100), None);
    assert_eq!(parse_unsigned(b"4294967295", u32::MAX as u64), Some(4294967295));
    assert_eq!(parse_unsigned(b"4294967296", u32::MAX as u64), None);
    assert_eq!(parse_unsigned(b"18446744073709551615", u64::MAX), Some(u64::MAX));
    assert_eq!(parse_unsigned(b"18446744073709551616", u64::MAX), None);
    assert_eq!(parse_unsigned(b"99999999999999999999999", u64::MAX), None);
    for text in ["0", "12", "+12", "007", "", "+", "-1", "1a", "4294967295", "4294967296"] {
        assert_eq!(
            parse_unsigned(text.as_bytes(), u32::MAX as u64),
            text.parse::<u32>().ok().map(|n| n as u64)
        );
    }
}

#[test]
fn read_first_number_takes_the_first_token_that_is_a_number() {
    assert_eq!(read_first_number(b" 1 0 R\n>>", u64::MAX), Some(1));
    assert_eq!(read_first_number(b"[1 0 R]", u64::MAX), Some(0));
    assert_eq!(read_first_number(b"\n>>\nstartxref\n1234\n%%EOF", u64::MAX), Some(1234));
    assert_eq!(read_first_number(b"abc def", u64::MAX), None);
    assert_eq!(read_first_number(b"", u64::MAX), None);
    assert_eq!(read_first_number(b"   ", u64::MAX), None);
    assert_eq!(read_first_number(b"12x 7", u64::MAX), Some(7));
    assert_eq!(read_first_number(b"300 7", 255), Some(7));
    assert_eq!(read_first_number(b"\t42\r\n", u64::MAX), Some(42));
}

#[test]
fn parse_object_number_before_reads_the_nearest_header() {
    let pdf = b"1 0 obj\n<<\n/Type /Catalog\n>>\nendobj\n23 0 obj\n<<\n/Type /Page\n>>\nendobj\n";
    let catalog = find_token(pdf, b"/Type /Catalog").unwrap();
    let page = find_token(pdf, b"/Type /Page").unwrap();
    assert_eq!(parse_object_number_before(pdf, catalog), Some(1));
    assert_eq!(parse_object_number_before(pdf, page), Some(23));
    assert_eq!(parse_object_number_before(pdf, 0), None);
    assert_eq!(parse_object_number_before(pdf, 5), None);
    assert_eq!(parse_object_number_before(b"x 0 obj /Type /Page", 8), None);
}

#[test]
fn parse_object_number_before_looks_back_two_thousand_bytes() {
    // the header keyword starts at offset 1; the window of a cursor at
    // 2001 starts there, the window of a cursor at 2002 behind it
    let mut near = b"7 0 obj\n".to_vec();
    near.extend(std::iter::repeat(b' ').take(1993));
    near.extend_from_slice(b"/Type /Page");
    assert_eq!(parse_object_number_before(&near, 2001), Some(7));
    let mut far = b"7 0 obj\n".to_vec();
    far.extend(std::iter::repeat(b' ').take(1994));
    far.extend_from_slice(b"/Type /Page");
    assert_eq!(parse_object_number_before(&far, 2002), None);
}

#[test]
fn lines_tokens_and_trimming() {
    assert_eq!(scan_line(b"ab\ncd", 0), 2);
    assert_eq!(scan_line(b"ab\ncd", 2), 2);
    assert_eq!(scan_line(b"ab\ncd", 3), 5);
    assert_eq!(scan_line(b"ab\rcd\n", 0), 2);
    assert_eq!(scan_line(b"ab\r\ncd", 3), 3);
    assert_eq!(scan_line(b"ab\r\ncd", 4), 6);
    assert_eq!(scan_token(b"ab cd", 0), 2);
    assert_eq!(scan_token(b"ab cd", 2), 2);
    assert_eq!(scan_token(b"ab cd", 3), 5);
    assert_eq!(trim(b"  /Lang (en-US) \r"), b"/Lang (en-US)");
    assert_eq!(trim(b"\t\n "), b"");
    assert_eq!(trim(b""), b"");
    assert_eq!(trim(b"x"), b"x");
}

#[test]
fn decimal_numerals() {
    let mut out = b"n=".to_vec();
    push_decimal(&mut out, 0);
    out.push(b' ');
    push_decimal(&mut out, 7);
    out.push(b' ');
    push_decimal(&mut out, 1234567890);
    out.push(b' ');
    push_decimal(&mut out, u64::MAX);
    assert_eq!(out, b"n=0 7 1234567890 18446744073709551615");
    assert_eq!(decimal_len(0), 1);
    assert_eq!(decimal_len(9), 1);
    assert_eq!(decimal_len(10), 2);
    assert_eq!(decimal_len(u64::MAX), 20);
}

#[test]
fn zero_padded_numerals() {
    let mut out = Vec::new();
    push_zero_padded(&mut out, 42, 10);
    assert_eq!(out, b"0000000042");
    let mut out = Vec::new();
    push_zero_padded(&mut out, 0, 10);
    assert_eq!(out, b"0000000000");
    let mut out = Vec::new();
    push_zero_padded(&mut out, 12345678901, 10);
    assert_eq!(out, b"12345678901");
    let mut out = Vec::new();
    push_zero_padded(&mut out, 5, 0);
    assert_eq!(out, b"5");
    assert_eq!(format!("{:010}", 987654u64).into_bytes(), {
        let mut out = Vec::new();
        push_zero_padded(&mut out, 987654, 10);
        out
    });
}
