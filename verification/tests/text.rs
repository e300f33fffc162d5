use sbp_settings::text::{is_float_literal, parse_i64, str_eq};

const INTEGER_CASES: &[&str] = &[
    "0", "7", "-7", "+7", "007", "-0", "+0", "", "+", "-", "--1", "+-1", "1 ", " 1", "1.0", "abc",
    "9223372036854775807", "9223372036854775808", "-9223372036854775808",
    "-9223372036854775809", "99999999999999999999999", "-99999999999999999999999", "12a", "٣",
];

#[test]
fn integers_read_as_std_reads_them() {
    for s in INTEGER_CASES {
        assert_eq!(parse_i64(s.as_bytes()), s.parse::<i64>().ok(), "{:?}", s);
    }
}

const FLOAT_CASES: &[&str] = &[
    "0", "0.1", "1.", ".5", ".", "", "+", "-", "-1.5", "+1.5", "1e5", "1E5", "1e+5", "1e-5",
    "1e", "1e+", "e5", ".e5", "1.e5", ".5e5", "inf", "INF", "-inf", "+Infinity", "infinity",
    "NaN", "nan", "-nan", "infin", "na", "1.2.3", "1e5e5", "1 ", " 1", "0x10", "1_000",
    "123456789012345678901234567890", "1e400", "--1", "+-1", "1,5", "é",
];

#[test]
fn float_texts_are_those_std_accepts() {
    for s in FLOAT_CASES {
        assert_eq!(is_float_literal(s.as_bytes()), s.parse::<f32>().is_ok(), "{:?}", s);
    }
}

#[test]
fn string_comparison() {
    assert!(str_eq("abc", "abc"));
    assert!(!str_eq("abc", "abd"));
    assert!(!str_eq("abc", "ab"));
    assert!(str_eq("", ""));
    assert!(str_eq("héllo", "héllo"));
}
