use neuro_arg::parse::{parse_int, split_bytes, split_fields};

#[test]
fn split_test() {
    assert_eq!(split_bytes(b"a,,b", b','), vec![b"a".to_vec(), vec![], b"b".to_vec()]);
    assert_eq!(split_bytes(b"", b','), vec![Vec::<u8>::new()]);
    assert_eq!(split_bytes(b"x\n", b'\n'), vec![b"x".to_vec(), vec![]]);
    assert_eq!(split_fields(b"\nab\n\nc\n", b'\n'), vec![b"ab".to_vec(), b"c".to_vec()]);
}

#[test]
fn parse_int_test() {
    let (lo, hi) = (i32::MIN as i128, i32::MAX as i128);
    assert_eq!(parse_int(b"-12", true, lo, hi), Some(-12));
    assert_eq!(parse_int(b"+7", true, lo, hi), Some(7));
    assert_eq!(parse_int(b"0042", true, lo, hi), Some(42));
    assert_eq!(parse_int(b"-2147483648", true, lo, hi), Some(-2147483648));
    assert_eq!(parse_int(b"2147483648", true, lo, hi), None);
    assert_eq!(parse_int(b"+", true, lo, hi), None);
    assert_eq!(parse_int(b"-", true, lo, hi), None);
    assert_eq!(parse_int(b"", true, lo, hi), None);
    assert_eq!(parse_int(b"1a", true, lo, hi), None);
    assert_eq!(parse_int(b" 1", true, lo, hi), None);
    assert_eq!(parse_int(b"-5", false, 0, 255), None);
    assert_eq!(parse_int(b"255", false, 0, 255), Some(255));
    assert_eq!(parse_int(b"256", false, 0, 255), None);
    assert_eq!(parse_int(b"18446744073709551615", false, 0, u64::MAX as i128), Some(u64::MAX as i128));
}
