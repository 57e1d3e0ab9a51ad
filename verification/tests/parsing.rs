use xmcd_rs::mode::Mode;
use xmcd_rs::parse::{parse_field, parse_lines, tokenize};
use xmcd_rs::Error;

fn field(text: &str) -> Option<i64> {
    parse_field(&text.as_bytes().to_vec())
}

#[test]
fn tokenize_splits_on_whitespace() {
    let toks = tokenize(&b"  7100\t1.0  0.2 \r".to_vec());
    assert_eq!(toks, vec![b"7100".to_vec(), b"1.0".to_vec(), b"0.2".to_vec()]);
    assert_eq!(tokenize(&b"".to_vec()).len(), 0);
    assert_eq!(tokenize(&b"   ".to_vec()).len(), 0);
}

#[test]
fn parse_field_reads_plain_and_signed_decimals() {
    assert_eq!(field("7100"), Some(7_100_000_000));
    assert_eq!(field("7100.5"), Some(7_100_500_000));
    assert_eq!(field("+3.5"), Some(3_500_000));
    assert_eq!(field("-2.25"), Some(-2_250_000));
    assert_eq!(field("0"), Some(0));
    assert_eq!(field(".5"), Some(500_000));
    assert_eq!(field("5."), Some(5_000_000));
    assert_eq!(field("-0"), Some(0));
}

#[test]
fn parse_field_truncates_fraction_digits_beyond_resolution() {
    assert_eq!(field("0.0000001"), Some(0));
    assert_eq!(field("-0.0000019"), Some(-1));
    assert_eq!(field("1.2345678"), Some(1_234_567));
}

#[test]
fn parse_field_rejects_non_numbers() {
    assert_eq!(field(""), None);
    assert_eq!(field("+"), None);
    assert_eq!(field("-"), None);
    assert_eq!(field("."), None);
    assert_eq!(field("+."), None);
    assert_eq!(field("abc"), None);
    assert_eq!(field("1e3"), None);
    assert_eq!(field("1.2.3"), None);
    assert_eq!(field("12a"), None);
    assert_eq!(field("--5"), None);
}

#[test]
fn parse_field_enforces_the_magnitude_bound() {
    assert_eq!(field("1000000"), Some(1_000_000_000_000));
    assert_eq!(field("-1000000"), Some(-1_000_000_000_000));
    assert_eq!(field("1000000.000001"), None);
    assert_eq!(field("1000001"), None);
    assert_eq!(field("99999999999999999999999999"), None);
}

#[test]
fn parse_lines_reads_records_in_order() {
    let input: Vec<Vec<u8>> = vec![
        b"7100 1.0 0.2".to_vec(),
        b"7100.5 0.5 0.4".to_vec(),
    ];
    let raw = parse_lines(&input).unwrap();
    assert_eq!(raw.len(), 2);
    assert_eq!(raw[0].energy, 7_100_000_000);
    assert_eq!(raw[0].incident, 1_000_000);
    assert_eq!(raw[0].transmitted, 200_000);
    assert_eq!(raw[1].energy, 7_100_500_000);
    assert_eq!(raw[1].incident, 500_000);
    assert_eq!(raw[1].transmitted, 400_000);
}

#[test]
fn parse_lines_reports_the_first_offending_field() {
    let four = parse_lines(&vec![b"1 2 3 4".to_vec()]);
    assert_eq!(four.unwrap_err(), Error::MalformedRecord { line: 0, field: 3 });
    let bad_first = parse_lines(&vec![b"x 2 3".to_vec()]);
    assert_eq!(bad_first.unwrap_err(), Error::MalformedRecord { line: 0, field: 0 });
    let missing_third = parse_lines(&vec![b"1 2".to_vec()]);
    assert_eq!(
        missing_third.unwrap_err(),
        Error::MalformedRecord { line: 0, field: 2 }
    );
}

#[test]
fn mode_accepts_the_known_spellings() {
    assert_eq!(Mode::from_str("xas").unwrap(), Mode::Xas);
    assert_eq!(Mode::from_str("XAS").unwrap(), Mode::Xas);
    assert_eq!(Mode::from_str("Xas").unwrap(), Mode::Xas);
    assert_eq!(Mode::from_str("xmcd").unwrap(), Mode::Xmcd);
    assert_eq!(Mode::from_str("XMCD").unwrap(), Mode::Xmcd);
    assert_eq!(Mode::from_str("Xmcd").unwrap(), Mode::Xmcd);
}

#[test]
fn mode_rejects_other_spellings() {
    assert_eq!(Mode::from_str("xAs").unwrap_err(), Error::InvalidMode);
    assert_eq!(Mode::from_str("").unwrap_err(), Error::InvalidMode);
    assert_eq!(Mode::from_str("spectrum").unwrap_err(), Error::InvalidMode);
}

#[test]
fn mode_text_is_the_lower_case_name() {
    assert_eq!(Mode::Xas.text(), "xas");
    assert_eq!(Mode::Xmcd.text(), "xmcd");
}
