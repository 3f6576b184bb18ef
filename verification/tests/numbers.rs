use verge_proxy::numbers::{decimal_text, parse_usize};

#[test]
fn numbers_are_written_in_decimal() {
    for number in [0, 1, 9, 10, 99, 100, 7897, u64::MAX] {
        assert_eq!(decimal_text(number), number.to_string());
    }
}

#[test]
fn numbers_read_back() {
    for number in [0usize, 7, 80, 65535, usize::MAX] {
        assert_eq!(parse_usize(&decimal_text(number as u64)), Some(number));
    }
}

#[test]
fn reading_agrees_with_the_standard_library() {
    for text in [
        "", "+", "-", "+5", "-5", "007", " 5", "5 ", "5a", "١", "++5", "1_000",
        "18446744073709551615", "18446744073709551616", "99999999999999999999999",
    ] {
        assert_eq!(parse_usize(text), text.parse::<usize>().ok(), "{text:?}");
    }
}
