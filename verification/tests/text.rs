use site_encrypt::text::{decimal, parse_u32};

#[test]
fn decimal_notation() {
    assert_eq!(decimal(0), "0");
    assert_eq!(decimal(600_000), "600000");
    assert_eq!(decimal(u64::MAX), "18446744073709551615");
}

#[test]
fn numbers_of_32_bits() {
    assert_eq!(parse_u32("100000"), Some(100_000));
    assert_eq!(parse_u32("+7"), Some(7));
    assert_eq!(parse_u32("4294967295"), Some(u32::MAX));
    assert_eq!(parse_u32("4294967296"), None);
    assert_eq!(parse_u32(""), None);
    assert_eq!(parse_u32("+"), None);
    assert_eq!(parse_u32("-1"), None);
    assert_eq!(parse_u32("1 "), None);
}

#[test]
fn decimal_and_parsing_agree() {
    for n in [0u32, 9, 10, 99, 100, 1_000_000, u32::MAX] {
        assert_eq!(parse_u32(&decimal(n as u64)), Some(n));
    }
}
