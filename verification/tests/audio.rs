use neuro_arg::audio::{geiger, parse_readings, period_sums};

#[test]
fn geiger_test() {
    let track = geiger(&[2, 0]);
    assert_eq!(track.len(), 3 * 1470);
    assert_eq!(&track[..4], &[32767, -32767, 32767, -32767]);
    assert!(track[1470..2940].iter().all(|x| *x == 0));
    assert_eq!(track[2940], 32767);
    assert_eq!(track[4409], -32767);
    assert_eq!(geiger(&[0]).len(), 1470);
}

#[test]
fn readings_test() {
    assert_eq!(parse_readings(b"3\n\n1\n"), Some(vec![3, 1]));
    assert_eq!(parse_readings(b"4294967295"), Some(vec![u32::MAX]));
    assert_eq!(parse_readings(b"4294967296"), None);
    assert_eq!(parse_readings(b"3\nx\n"), None);
    assert_eq!(parse_readings(b""), Some(vec![]));
}

#[test]
fn period_sums_test() {
    assert_eq!(period_sums(&[1, 2, 3, 4, 5, 6, 7], 3), vec![5, 7, 9]);
    assert_eq!(period_sums(&[1, 2], 3), vec![0, 0, 0]);
    assert_eq!(period_sums(&[-32768, -32768], 1), vec![-65536]);
}
