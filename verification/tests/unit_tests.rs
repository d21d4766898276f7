use csv_validator::errors::{ColKind, ErrorCode, PackedError};
use csv_validator::{default_delimiter, ValidatorEngine};
use csv_validator::fields::{is_valid_int, trim_ascii};
use csv_validator::decimal::{dec_canonicalize, dec_parse};
use csv_validator::date::{is_valid_date, normalize_date};
use csv_validator::DateFormat;

#[test]
fn default_delimiter_is_comma() {
    assert_eq!(default_delimiter(), b',');
}

#[test]
fn packed_words_follow_the_bit_layout() {
    let e = PackedError { row: 9, col: 5, code: ErrorCode::NotAllowed, kind: ColKind::Schema };
    let w = e.to_words();
    assert_eq!(w[0], 9);
    assert_eq!(w[1], (5 << 8) | 4);
    let x = PackedError { row: 1, col: 3, code: ErrorCode::ExtraColumn, kind: ColKind::Input };
    let wx = x.to_words();
    assert_eq!(wx[1], (1 << 31) | (3 << 8) | 7);
}

#[test]
fn error_code_numbers_and_names_are_stable() {
    let all = [
        (ErrorCode::MissingRequired, 1, "MissingRequired"),
        (ErrorCode::InvalidType, 2, "InvalidType"),
        (ErrorCode::MaxLengthExceeded, 3, "MaxLengthExceeded"),
        (ErrorCode::NotAllowed, 4, "NotAllowed"),
        (ErrorCode::InvalidUtf8, 5, "InvalidUtf8"),
        (ErrorCode::MissingRequiredColumn, 6, "MissingRequiredColumn"),
        (ErrorCode::ExtraColumn, 7, "ExtraColumn"),
    ];
    for (code, num, name) in all {
        assert_eq!(code.as_u8(), num);
        assert_eq!(code.as_str(), name);
        assert_eq!(ValidatorEngine::error_code_to_string(num), name);
    }
    assert_eq!(ValidatorEngine::error_code_to_string(0), "Unknown");
    assert_eq!(ValidatorEngine::error_code_to_string(200), "Unknown");
}

#[test]
fn trimming_and_int_syntax() {
    assert_eq!(trim_ascii(b"  a b \t\r\n"), b"a b");
    assert_eq!(trim_ascii(b""), b"");
    assert_eq!(trim_ascii(b" \t "), b"");
    assert!(is_valid_int(b"42"));
    assert!(is_valid_int(b"+42"));
    assert!(is_valid_int(b"-0"));
    assert!(!is_valid_int(b""));
    assert!(!is_valid_int(b"-"));
    assert!(!is_valid_int(b"4 2"));
    assert!(!is_valid_int(b"1_000"));
    assert!(!is_valid_int(b"12.0"));
}

#[test]
fn decimal_parse_and_canonical_forms() {
    assert!(dec_parse(b"0.5").is_some());
    assert!(dec_parse(b".5").is_some());
    assert!(dec_parse(b"5.").is_some());
    assert!(dec_parse(b"+1.25").is_some());
    assert!(dec_parse(b"").is_none());
    assert!(dec_parse(b".").is_none());
    assert!(dec_parse(b"1,5").is_none());
    assert!(dec_parse(b"1.2.3").is_none());
    assert_eq!(dec_canonicalize(b"3", 2).unwrap(), b"3.00");
    assert_eq!(dec_canonicalize(b"3.00", 2).unwrap(), b"3.00");
    assert_eq!(dec_canonicalize(b"007.5", 1).unwrap(), b"7.5");
    assert_eq!(dec_canonicalize(b".5", 2).unwrap(), b"0.50");
    assert_eq!(dec_canonicalize(b"9.99", 1).unwrap(), b"10.0");
    assert_eq!(dec_canonicalize(b"2.5", 0).unwrap(), b"3");
    assert_eq!(dec_canonicalize(b"-2.5", 0).unwrap(), b"-3");
    assert_eq!(dec_canonicalize(b"-0.004", 2).unwrap(), b"0.00");
}

#[test]
fn date_parse_and_canonical_forms() {
    assert!(is_valid_date(b"2024-02-29", DateFormat::YmdDash));
    assert!(!is_valid_date(b"2023-02-29", DateFormat::YmdDash));
    assert!(!is_valid_date(b"2024-04-31", DateFormat::YmdDash));
    assert!(!is_valid_date(b"2024-13-01", DateFormat::YmdDash));
    assert!(!is_valid_date(b"2024-0-10", DateFormat::YmdDash));
    assert!(!is_valid_date(b"10000-01-01", DateFormat::YmdDash));
    assert!(!is_valid_date(b"2024/01/01", DateFormat::YmdDash));
    assert!(!is_valid_date(b"2024-01", DateFormat::YmdDash));
    assert!(!is_valid_date(b"2024-01-01-01", DateFormat::YmdDash));
    assert!(is_valid_date(b"1900-02-28", DateFormat::YmdDash));
    assert!(!is_valid_date(b"1900-02-29", DateFormat::YmdDash));
    assert!(is_valid_date(b"2000-02-29", DateFormat::YmdDash));
    assert_eq!(normalize_date(b"31/01/2024", DateFormat::DmySlash).unwrap(), b"2024-01-31");
    assert_eq!(normalize_date(b"02/29/2024", DateFormat::MdySlash).unwrap(), b"2024-02-29");
    assert_eq!(normalize_date(b"7-4-9", DateFormat::YmdDash).unwrap(), b"0007-04-09");
    assert!(normalize_date(b"7-4-99", DateFormat::YmdDash).is_none());
}
