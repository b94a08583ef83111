use transaction_system::currency::PreciseCurrency;

fn try_serialize(test_cur: PreciseCurrency, expected: &str) {
    assert_eq!(test_cur.to_decimal_string(), expected, "serialization");
}

fn try_deserialize(test_str: &str, expected: PreciseCurrency) {
    let data = PreciseCurrency::from_decimal_str(test_str).unwrap();
    assert_eq!(data, expected, "deserialization");
}

fn try_both(test_cur: PreciseCurrency, test_str: &str) {
    try_serialize(test_cur, test_str);
    try_deserialize(test_str, test_cur);
}

#[test]
fn test_big() {
    try_both(PreciseCurrency::from_raw(9876543210_i64), "987654.3210");
    try_both(PreciseCurrency::from_raw(-9876543210_i64), "-987654.3210");
}

#[test]
fn test_full() {
    try_both(PreciseCurrency::from_raw(123444_i64), "12.3444");
    try_both(PreciseCurrency::from_raw(-123444_i64), "-12.3444");
}

#[test]
fn test_integer() {
    try_both(PreciseCurrency::from_raw(140000_i64), "14.0000");
    try_both(PreciseCurrency::from_raw(-140000_i64), "-14.0000");
}

#[test]
fn test_decimals() {
    try_both(PreciseCurrency::from_raw(1234_i64), "0.1234");
    try_both(PreciseCurrency::from_raw(-1234_i64), "-0.1234");
}

#[test]
fn test_partial1() {
    try_both(PreciseCurrency::from_raw(123_i64), "0.0123");
    try_both(PreciseCurrency::from_raw(-123_i64), "-0.0123");
}

#[test]
fn test_partial2() {
    try_both(PreciseCurrency::from_raw(10_i64), "0.0010");
    try_both(PreciseCurrency::from_raw(-10_i64), "-0.0010");
}

#[test]
fn test_zero() {
    try_both(PreciseCurrency::from_raw(0_i64), "0.0000");
}

#[test]
fn test_round_trip_extremes() {
    for raw in [
        0_i64,
        1,
        -1,
        9999,
        10000,
        -10001,
        i64::MAX,
        i64::MIN,
        i64::MAX - 1,
        i64::MIN + 1,
    ] {
        let c = PreciseCurrency::from_raw(raw);
        let text = c.to_decimal_string();
        assert_eq!(PreciseCurrency::from_decimal_str(&text), Some(c), "{text}");
    }
}

#[test]
fn test_saturating_arithmetic_clamps() {
    let max = PreciseCurrency::from_raw(i64::MAX);
    let min = PreciseCurrency::from_raw(i64::MIN);
    let one = PreciseCurrency::from_raw(1);
    assert_eq!(max.saturating_add(one), max);
    assert_eq!(min.saturating_sub(one), min);
    assert_eq!(max.saturating_add(max), max);
    assert_eq!(min.saturating_add(min), min);
    assert_eq!(max.saturating_sub(min), max);
    assert_eq!(min.saturating_sub(max), min);
    assert_eq!(
        max.saturating_sub(one),
        PreciseCurrency::from_raw(i64::MAX - 1)
    );
    assert_eq!(
        min.saturating_add(one),
        PreciseCurrency::from_raw(i64::MIN + 1)
    );
}

#[test]
fn test_parse_accepts_plain_decimals() {
    let cases: [(&str, i64); 10] = [
        ("1", 10000),
        ("+2", 20000),
        ("1.", 10000),
        (".5", 5000),
        ("-.5", -5000),
        ("1.23456", 12345),
        ("0.00009", 0),
        ("-0.00009", 0),
        ("007", 70000),
        ("12.3444", 123444),
    ];
    for (text, raw) in cases {
        assert_eq!(
            PreciseCurrency::from_decimal_str(text),
            Some(PreciseCurrency::from_raw(raw)),
            "{text}"
        );
    }
}

#[test]
fn test_parse_clamps_huge_magnitudes() {
    assert_eq!(
        PreciseCurrency::from_decimal_str("99999999999999999999999999"),
        Some(PreciseCurrency::from_raw(i64::MAX))
    );
    assert_eq!(
        PreciseCurrency::from_decimal_str("-99999999999999999999999999"),
        Some(PreciseCurrency::from_raw(i64::MIN))
    );
}

#[test]
fn test_parse_rejects_malformed_text() {
    for text in ["", "-", "+", ".", "-.", "abc", "1.2.3", "--5", "1e3", " 1", "1 ", "5-"] {
        assert_eq!(PreciseCurrency::from_decimal_str(text), None, "{text}");
    }
}
