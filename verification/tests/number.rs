use jsonl_peek::json::Value;
use jsonl_peek::number::{parse_i64, parse_u64, parse_usize};

#[test]
fn numbers_are_read_like_the_standard_library_reads_them() {
    for text in [
        "", "+", "-", "0", "-0", "+0", "007", "12", "+12", "-12", "1 ", " 1", "1_0", "0x1", "--1",
        "+-1", "9223372036854775807", "9223372036854775808", "-9223372036854775808",
        "-9223372036854775809", "18446744073709551615", "18446744073709551616", "٣",
        "000000000000000000000000000000001", "99999999999999999999999999",
    ] {
        assert_eq!(parse_i64(text), text.parse::<i64>().ok(), "{text}");
        assert_eq!(parse_u64(text), text.parse::<u64>().ok(), "{text}");
        assert_eq!(parse_usize(text), text.parse::<usize>().ok(), "{text}");
    }
}

#[test]
fn numbers_are_read_back() {
    for n in [0, 7, -7, 10, 1_000_000_007, i64::MAX, i64::MIN] {
        let text = Value::Int(n).to_json();
        assert_eq!(text, n.to_string());
        assert_eq!(parse_i64(&text), Some(n));
    }
}
